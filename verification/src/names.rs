//! Names of the files in a store's directory.
//!
//! A journal is called `0000000007.journal`, a snapshot `0000000007.snapshot`: the version
//! padded with zeros to ten digits, which is enough for every version. When a directory is
//! read back, any spelling of the version that is a decimal number is understood.

use vstd::prelude::*;

verus! {

/// Version of the snapshot that a file holds or, for a journal, leads up to.
pub type SnapshotVersion = u32;

/// What a file of the store holds.
#[derive(Debug, Clone, Copy, PartialEq, Eq, Structural)]
pub enum FileKind {
    /// The whole data of the store.
    Snapshot,
    /// Transactions, one after the other.
    Journal,
}

/// A file name cut at its last dot.
#[derive(Debug)]
pub struct FileNameParts {
    /// What stands before the last dot; `None` for the name `..`, which is no file's name.
    pub stem: Option<Vec<u8>>,
    /// What stands behind the last dot, if the name has one that does not start it.
    pub extension: Option<Vec<u8>>,
}

/// Is `byte` one of the ten ASCII digits?
pub open spec fn is_digit(byte: u8) -> bool {
    48 <= byte <= 57
}

/// The number that a string of ASCII digits writes in base ten.
pub open spec fn decimal_value(digits: Seq<u8>) -> nat
    decreases digits.len(),
{
    if digits.len() == 0 {
        0
    } else {
        decimal_value(digits.drop_last()) * 10 + (digits.last() - 48) as nat
    }
}

/// `text` without the plus sign that may stand before a number.
pub open spec fn without_plus(text: Seq<u8>) -> Seq<u8> {
    if text.len() > 0 && text[0] == 43 {
        text.skip(1)
    } else {
        text
    }
}

/// The version that `text` writes: one or more digits, with a plus sign before them or none,
/// whose value fits.
pub open spec fn spec_parse_version(text: Seq<u8>) -> Option<SnapshotVersion> {
    let digits = without_plus(text);
    if digits.len() > 0 && (forall|i: int| 0 <= i < digits.len() ==> is_digit(#[trigger] digits[i]))
        && decimal_value(digits) <= u32::MAX {
        Some(decimal_value(digits) as u32)
    } else {
        None
    }
}

/// Position of the last dot in `name`, or `-1` if there is none.
pub open spec fn last_dot(name: Seq<u8>) -> int
    decreases name.len(),
{
    if name.len() == 0 {
        -1
    } else if name.last() == 46 {
        name.len() - 1
    } else {
        last_dot(name.drop_last())
    }
}

/// The part of a file name before its last dot. A dot that starts the name does not cut it.
pub open spec fn stem(name: Seq<u8>) -> Option<Seq<u8>> {
    if name == seq![46u8, 46u8] {
        None
    } else if last_dot(name) <= 0 {
        Some(name)
    } else {
        Some(name.take(last_dot(name)))
    }
}

/// The part of a file name behind its last dot.
pub open spec fn extension(name: Seq<u8>) -> Option<Seq<u8>> {
    if name == seq![46u8, 46u8] || last_dot(name) <= 0 {
        None
    } else {
        Some(name.skip(last_dot(name) + 1))
    }
}

/// The extension of the files of a kind: `journal` or `snapshot`.
pub open spec fn extension_of(kind: FileKind) -> Seq<u8> {
    match kind {
        FileKind::Journal => seq![106u8, 111, 117, 114, 110, 97, 108],
        FileKind::Snapshot => seq![115u8, 110, 97, 112, 115, 104, 111, 116],
    }
}

/// The digit of weight `weight` in the decimal form of `version`.
pub open spec fn digit(version: SnapshotVersion, weight: u32) -> u8 {
    (48 + (version / weight) % 10) as u8
}

/// `version` as ten decimal digits.
pub open spec fn padded(version: SnapshotVersion) -> Seq<u8> {
    seq![
        digit(version, 1_000_000_000),
        digit(version, 100_000_000),
        digit(version, 10_000_000),
        digit(version, 1_000_000),
        digit(version, 100_000),
        digit(version, 10_000),
        digit(version, 1_000),
        digit(version, 100),
        digit(version, 10),
        digit(version, 1),
    ]
}

/// The name of the file of the given kind and version.
pub open spec fn spec_file_name(kind: FileKind, version: SnapshotVersion) -> Seq<u8> {
    padded(version).push(46) + extension_of(kind)
}

proof fn lemma_decimal_value_take(digits: Seq<u8>, i: int)
    requires
        0 <= i < digits.len(),
    ensures
        decimal_value(digits.take(i + 1)) == decimal_value(digits.take(i)) * 10 + (digits[i] - 48) as nat,
{
    assert(digits.take(i + 1).drop_last() =~= digits.take(i));
}

proof fn lemma_decimal_value_grows(digits: Seq<u8>, i: int)
    requires
        0 <= i <= digits.len(),
        forall|j: int| 0 <= j < digits.len() ==> is_digit(#[trigger] digits[j]),
    ensures
        decimal_value(digits.take(i)) <= decimal_value(digits),
    decreases digits.len() - i,
{
    if i < digits.len() {
        lemma_decimal_value_grows(digits, i + 1);
        lemma_decimal_value_take(digits, i);
    } else {
        assert(digits.take(i) =~= digits);
    }
}

/// Reads a version the way integers are read: one or more digits, a plus sign before them
/// being allowed. `None` if `text` is anything else or the number is too large.
pub fn parse_version(text: &[u8]) -> (version: Option<SnapshotVersion>)
    ensures
        version == spec_parse_version(text@),
{
    let start: usize = if text.len() > 0 && text[0] == 43 {
        1
    } else {
        0
    };
    let ghost digits = without_plus(text@);
    if start == text.len() {
        return None;
    }
    let mut value: u32 = 0;
    let mut i: usize = start;
    assert(digits.take(0) =~= Seq::<u8>::empty());
    while i < text.len()
        invariant
            start <= i <= text.len(),
            0 <= start <= 1,
            digits == without_plus(text@),
            digits == text@.skip(start as int),
            digits.len() > 0,
            forall|j: int| 0 <= j < i - start ==> is_digit(#[trigger] digits[j]),
            value == decimal_value(digits.take(i - start)),
        decreases text.len() - i,
    {
        let byte = text[i];
        assert(byte == digits[i - start]);
        if byte < 48 || byte > 57 {
            assert(!is_digit(digits[i - start]));
            return None;
        }
        proof {
            lemma_decimal_value_take(digits, i - start);
            if forall|j: int| 0 <= j < digits.len() ==> is_digit(#[trigger] digits[j]) {
                lemma_decimal_value_grows(digits, i - start + 1);
            }
        }
        value = match value.checked_mul(10) {
            Some(tens) => match tens.checked_add((byte - 48) as u32) {
                Some(sum) => sum,
                None => return None,
            },
            None => return None,
        };
        i = i + 1;
    }
    assert(digits.take(i - start) =~= digits);
    Some(value)
}

/// Cuts a file name at its last dot, as paths are cut into stem and extension.
pub fn parse_file_name(name: &[u8]) -> (parts: FileNameParts)
    ensures
        match parts.stem {
            Some(text) => stem(name@) == Some(text@),
            None => stem(name@) is None,
        },
        match parts.extension {
            Some(text) => extension(name@) == Some(text@),
            None => extension(name@) is None,
        },
{
    if name.len() == 2 && name[0] == 46 && name[1] == 46 {
        assert(name@ =~= seq![46u8, 46u8]);
        return FileNameParts { stem: None, extension: None };
    }
    let mut i: usize = name.len();
    assert(name@.take(i as int) =~= name@);
    while i > 0 && name[i - 1] != 46
        invariant
            i <= name.len(),
            last_dot(name@) == last_dot(name@.take(i as int)),
        decreases i,
    {
        assert(name@.take(i as int).drop_last() =~= name@.take(i - 1));
        i = i - 1;
    }
    if i <= 1 {
        proof {
            reveal_with_fuel(last_dot, 2);
        }
        return FileNameParts { stem: Some(copy(name, 0, name.len())), extension: None };
    }
    FileNameParts { stem: Some(copy(name, 0, i - 1)), extension: Some(copy(name, i, name.len())) }
}

/// The bytes of `text` from `start` up to `end`.
fn copy(text: &[u8], start: usize, end: usize) -> (part: Vec<u8>)
    requires
        start <= end <= text.len(),
    ensures
        part@ == text@.subrange(start as int, end as int),
{
    let mut part: Vec<u8> = Vec::new();
    let mut i: usize = start;
    while i < end
        invariant
            start <= i <= end <= text.len(),
            part@ =~= text@.subrange(start as int, i as int),
        decreases end - i,
    {
        part.push(text[i]);
        i = i + 1;
    }
    part
}

/// Is `name` the name of the file of the given kind and version?
pub fn is_name_of(name: &[u8], kind: FileKind, version: SnapshotVersion) -> (answer: bool)
    ensures
        answer == (name@ == spec_file_name(kind, version)),
{
    let wanted = file_name(kind, version);
    if name.len() != wanted.len() {
        return false;
    }
    let mut i: usize = 0;
    while i < name.len()
        invariant
            i <= name.len() == wanted.len(),
            wanted@ == spec_file_name(kind, version),
            forall|j: int| 0 <= j < i ==> name@[j] == wanted@[j],
        decreases name.len() - i,
    {
        if name[i] != wanted[i] {
            assert(name@[i as int] != wanted@[i as int]);
            return false;
        }
        i = i + 1;
    }
    assert(name@ =~= wanted@);
    true
}

impl FileKind {
    /// The kind of file that has this extension.
    pub fn from_extension(extension: &[u8]) -> (kind: Option<FileKind>)
        ensures
            kind == Some(FileKind::Journal) <==> extension@ == extension_of(FileKind::Journal),
            kind == Some(FileKind::Snapshot) <==> extension@ == extension_of(FileKind::Snapshot),
    {
        if extension.len() == 7 && extension[0] == 106 && extension[1] == 111 && extension[2] == 117
            && extension[3] == 114 && extension[4] == 110 && extension[5] == 97 && extension[6] == 108 {
            assert(extension@ =~= extension_of(FileKind::Journal));
            Some(FileKind::Journal)
        } else if extension.len() == 8 && extension[0] == 115 && extension[1] == 110 && extension[2]
            == 97 && extension[3] == 112 && extension[4] == 115 && extension[5] == 104 && extension[6]
            == 111 && extension[7] == 116 {
            assert(extension@ =~= extension_of(FileKind::Snapshot));
            Some(FileKind::Snapshot)
        } else {
            None
        }
    }

    /// The extension of the files of this kind.
    pub fn extension(&self) -> (extension: Vec<u8>)
        ensures
            extension@ == extension_of(*self),
    {
        match self {
            FileKind::Journal => vec![106, 111, 117, 114, 110, 97, 108],
            FileKind::Snapshot => vec![115, 110, 97, 112, 115, 104, 111, 116],
        }
    }
}

/// The name of the file of the given kind and version, such as `0000000007.journal`.
pub fn file_name(kind: FileKind, version: SnapshotVersion) -> (name: Vec<u8>)
    ensures
        name@ == spec_file_name(kind, version),
{
    let mut name: Vec<u8> = vec![
        (48 + (version / 1_000_000_000) % 10) as u8,
        (48 + (version / 100_000_000) % 10) as u8,
        (48 + (version / 10_000_000) % 10) as u8,
        (48 + (version / 1_000_000) % 10) as u8,
        (48 + (version / 100_000) % 10) as u8,
        (48 + (version / 10_000) % 10) as u8,
        (48 + (version / 1_000) % 10) as u8,
        (48 + (version / 100) % 10) as u8,
        (48 + (version / 10) % 10) as u8,
        (48 + version % 10) as u8,
        46,
    ];
    assert(name@ =~= padded(version).push(46));
    let mut extension = kind.extension();
    name.append(&mut extension);
    name
}

/// With one more digit of `version`, the value is `version` divided by the weight of that digit.
proof fn lemma_next_digit(digits: Seq<u8>, i: int, version: SnapshotVersion, weight: u32)
    requires
        0 <= i < digits.len(),
        0 < weight,
        digits[i] == digit(version, weight),
        decimal_value(digits.take(i)) == version as int / (weight * 10),
    ensures
        is_digit(digits[i]),
        decimal_value(digits.take(i + 1)) == version as int / weight as int,
{
    let v = version as int;
    let w = weight as int;
    lemma_decimal_value_take(digits, i);
    vstd::arithmetic::div_mod::lemma_div_denominator(v, w, 10);
    vstd::arithmetic::div_mod::lemma_fundamental_div_mod(v / w, 10);
}

proof fn lemma_padded_value(version: SnapshotVersion)
    ensures
        forall|i: int| 0 <= i < 10 ==> is_digit(#[trigger] padded(version)[i]),
        decimal_value(padded(version)) == version,
{
    let digits = padded(version);
    assert(digits.take(0) =~= Seq::<u8>::empty());
    assert(version as int / 10_000_000_000 == 0);
    lemma_next_digit(digits, 0, version, 1_000_000_000);
    lemma_next_digit(digits, 1, version, 100_000_000);
    lemma_next_digit(digits, 2, version, 10_000_000);
    lemma_next_digit(digits, 3, version, 1_000_000);
    lemma_next_digit(digits, 4, version, 100_000);
    lemma_next_digit(digits, 5, version, 10_000);
    lemma_next_digit(digits, 6, version, 1_000);
    lemma_next_digit(digits, 7, version, 100);
    lemma_next_digit(digits, 8, version, 10);
    lemma_next_digit(digits, 9, version, 1);
    assert(digits.take(10) =~= digits);
}

proof fn lemma_last_dot(before: Seq<u8>, after: Seq<u8>)
    requires
        forall|i: int| 0 <= i < after.len() ==> #[trigger] after[i] != 46,
    ensures
        last_dot(before.push(46) + after) == before.len(),
    decreases after.len(),
{
    let name = before.push(46) + after;
    if after.len() == 0 {
        assert(name =~= before.push(46));
    } else {
        assert(name.drop_last() =~= before.push(46) + after.drop_last());
        assert(name.last() == after.last());
        lemma_last_dot(before, after.drop_last());
    }
}

/// A name that the store gives to a file is cut and read back to the version and the
/// extension that it was made of.
pub proof fn file_name_reads_back(kind: FileKind, version: SnapshotVersion)
    ensures
        stem(spec_file_name(kind, version)) == Some(padded(version)),
        spec_parse_version(padded(version)) == Some(version),
        extension(spec_file_name(kind, version)) == Some(extension_of(kind)),
{
    let name = spec_file_name(kind, version);
    lemma_padded_value(version);
    assert(is_digit(padded(version)[0]));
    assert(without_plus(padded(version)) == padded(version));
    lemma_last_dot(padded(version), extension_of(kind));
    assert(name.len() > 2);
    assert(name.take(10) =~= padded(version));
    assert(name.skip(11) =~= extension_of(kind));
}

/// Two files of the store have the same name only if they are of the same kind and version.
pub proof fn file_names_differ(
    kind: FileKind,
    version: SnapshotVersion,
    other_kind: FileKind,
    other_version: SnapshotVersion,
)
    requires
        spec_file_name(kind, version) == spec_file_name(other_kind, other_version),
    ensures
        kind == other_kind,
        version == other_version,
{
    file_name_reads_back(kind, version);
    file_name_reads_back(other_kind, other_version);
    assert(extension_of(FileKind::Journal).len() == 7);
    assert(extension_of(FileKind::Snapshot).len() == 8);
}

proof fn lemma_last_dot_at(front: Seq<u8>, back: Seq<u8>)
    requires
        forall|i: int| 0 <= i < back.len() ==> #[trigger] back[i] != 46,
    ensures
        last_dot(front + seq![46u8] + back) == front.len(),
    decreases back.len(),
{
    let name = front + seq![46u8] + back;
    if back.len() > 0 {
        assert(name.drop_last() =~= front + seq![46u8] + back.drop_last());
        assert(name.last() == back[back.len() - 1]);
        lemma_last_dot_at(front, back.drop_last());
    }
}

proof fn lemma_no_later_dot(name: Seq<u8>)
    requires
        forall|i: int| 1 <= i < name.len() ==> #[trigger] name[i] != 46,
    ensures
        last_dot(name) <= 0,
    decreases name.len(),
{
    if name.len() > 1 {
        assert(name.last() == name[name.len() - 1]);
        assert forall|i: int| 1 <= i < name.drop_last().len() implies #[trigger] name.drop_last()[i] != 46 by {
            assert(name.drop_last()[i] == name[i]);
        }
        lemma_no_later_dot(name.drop_last());
    } else {
        reveal_with_fuel(last_dot, 2);
    }
}

/// What stands before the last dot of a name is its stem, and what stands behind it its extension,
/// unless nothing stands before it, and but for the name of two dots.
pub proof fn names_are_cut_at_their_last_dot(front: Seq<u8>, back: Seq<u8>)
    requires
        front.len() > 0,
        !(front == seq![46u8] && back.len() == 0),
        forall|i: int| 0 <= i < back.len() ==> #[trigger] back[i] != 46,
    ensures
        stem(front + seq![46u8] + back) == Some(front),
        extension(front + seq![46u8] + back) == Some(back),
{
    let name = front + seq![46u8] + back;
    lemma_last_dot_at(front, back);
    assert(name.take(front.len() as int) =~= front);
    assert(name.skip(front.len() as int + 1) =~= back);
    if name == seq![46u8, 46u8] {
        assert(name.len() == 2);
        assert(front =~= seq![46u8]);
    }
}

/// A name that has no dot, or only one that starts it, is all stem.
pub proof fn names_without_a_dot_are_not_cut(name: Seq<u8>)
    requires
        forall|i: int| 1 <= i < name.len() ==> #[trigger] name[i] != 46,
    ensures
        stem(name) == Some(name),
        extension(name) is None,
{
    lemma_no_later_dot(name);
    if name == seq![46u8, 46u8] {
        assert(name[1] == 46);
    }
}

/// How a name is cut, seen from the parts that come out.
pub proof fn file_names_are_cut_in_two(
    name: &[u8],
    parts: FileNameParts,
    front: Seq<u8>,
    back: Seq<u8>,
)
    requires
        call_ensures(parse_file_name, (name,), parts),
    ensures
        name@ == front + seq![46u8] + back && front.len() > 0 && !(front == seq![46u8] && back.len() == 0) && (
        forall|i: int| 0 <= i < back.len() ==> #[trigger] back[i] != 46) ==> {
            &&& parts.stem matches Some(stem) && stem@ == front
            &&& parts.extension matches Some(extension) && extension@ == back
        },
        (forall|i: int| 1 <= i < name@.len() ==> #[trigger] name@[i] != 46) ==> {
            &&& parts.stem matches Some(stem) && stem@ == name@
            &&& parts.extension is None
        },
        name@ == seq![46u8, 46u8] ==> parts.stem is None && parts.extension is None,
{
    if name@ == front + seq![46u8] + back && front.len() > 0 && !(front == seq![46u8] && back.len() == 0) && (forall|
        i: int,
    |
        0 <= i < back.len() ==> #[trigger] back[i] != 46) {
        names_are_cut_at_their_last_dot(front, back);
    }
    if forall|i: int| 1 <= i < name@.len() ==> #[trigger] name@[i] != 46 {
        names_without_a_dot_are_not_cut(name@);
    }
}

/// The name of a file is ten decimal digits that make up the version, a dot, and the word
/// `journal` or `snapshot`.
pub proof fn file_names_are_ten_digits_and_a_word(kind: FileKind, version: SnapshotVersion, name: Vec<u8>)
    requires
        call_ensures(file_name, (kind, version), name),
    ensures
        forall|i: int| 0 <= i < 10 ==> 48 <= #[trigger] name@[i] <= 57,
        (name@[0] - 48) * 1_000_000_000 + (name@[1] - 48) * 100_000_000 + (name@[2] - 48) * 10_000_000 + (name@[3]
            - 48) * 1_000_000 + (name@[4] - 48) * 100_000 + (name@[5] - 48) * 10_000 + (name@[6] - 48) * 1_000 + (
        name@[7] - 48) * 100 + (name@[8] - 48) * 10 + (name@[9] - 48) == version,
        name@[10] == 46,
        kind == FileKind::Journal ==> name@.skip(11) == seq![106u8, 111, 117, 114, 110, 97, 108],
        kind == FileKind::Snapshot ==> name@.skip(11) == seq![115u8, 110, 97, 112, 115, 104, 111, 116],
        name@ == spec_file_name(kind, version),
{
    assert(name@.skip(11) =~= extension_of(kind));
    lemma_digits_make_up(version);
}

proof fn lemma_digits_make_up(version: SnapshotVersion)
    ensures
        (digit(version, 1_000_000_000) - 48) * 1_000_000_000 + (digit(version, 100_000_000) - 48) * 100_000_000 + (
        digit(version, 10_000_000) - 48) * 10_000_000 + (digit(version, 1_000_000) - 48) * 1_000_000 + (digit(
            version,
            100_000,
        ) - 48) * 100_000 + (digit(version, 10_000) - 48) * 10_000 + (digit(version, 1_000) - 48) * 1_000 + (digit(
            version,
            100,
        ) - 48) * 100 + (digit(version, 10) - 48) * 10 + (digit(version, 1) - 48) == version,
{
    let digits = padded(version);
    lemma_padded_value(version);
    assert(digits.take(0) =~= Seq::<u8>::empty());
    assert(decimal_value(digits.take(0)) == 0);
    lemma_decimal_value_take(digits, 0);
    lemma_decimal_value_take(digits, 1);
    lemma_decimal_value_take(digits, 2);
    lemma_decimal_value_take(digits, 3);
    lemma_decimal_value_take(digits, 4);
    lemma_decimal_value_take(digits, 5);
    lemma_decimal_value_take(digits, 6);
    lemma_decimal_value_take(digits, 7);
    lemma_decimal_value_take(digits, 8);
    lemma_decimal_value_take(digits, 9);
    assert(digits.take(10) =~= digits);
}

/// How versions are read: a digit is its value; behind what is read as a version, a digit makes it
/// ten times as much and adds its value, if that fits; a plus sign may stand before the first
/// digit; and nothing else is read as a version.
pub proof fn versions_are_read_digit_by_digit(
    text: &[u8],
    version: Option<SnapshotVersion>,
    byte: u8,
    longer: &[u8],
    longer_version: Option<SnapshotVersion>,
)
    requires
        call_ensures(parse_version, (text,), version),
        longer@ == text@.push(byte),
        call_ensures(parse_version, (longer,), longer_version),
    ensures
        text@.len() == 0 ==> version is None,
        longer_version == if !(48 <= byte <= 57) {
            None
        } else if text@.len() == 0 || text@ == seq![43u8] {
            Some((byte - 48) as u32)
        } else {
            match version {
                Some(number) => if number * 10 + (byte - 48) <= u32::MAX {
                    Some((number * 10 + (byte - 48)) as u32)
                } else {
                    None
                },
                None => None,
            }
        },
{
    let digits = without_plus(text@);
    let more = without_plus(longer@);
    if text@.len() == 0 {
        assert(longer@ =~= seq![byte]);
        if byte == 43 {
            assert(more.len() == 0);
        } else {
            assert(more =~= seq![byte]);
            assert(more.drop_last() =~= Seq::<u8>::empty());
            assert(decimal_value(more.drop_last()) == 0);
            assert(more.last() == byte);
        }
        if 48 <= byte <= 57 {
            assert(decimal_value(more) == byte - 48);
        } else if byte != 43 {
            assert(more[0] == byte);
        }
    } else {
        assert(more =~= digits.push(byte)) by {
            if text@[0] == 43 {
                assert(longer@[0] == 43);
            } else {
                assert(longer@[0] == text@[0]);
            }
        }
        assert(more.drop_last() =~= digits);
        assert(more.last() == byte);
        assert(more[digits.len() as int] == byte);
        assert(decimal_value(more) == decimal_value(digits) * 10 + (byte - 48) as nat);
        if digits.len() == 0 {
            assert(text@ =~= seq![43u8]);
            assert(decimal_value(digits) == 0);
            assert forall|i: int| 0 <= i < more.len() implies more[i] == byte by {}
        } else {
            assert(text@ != seq![43u8]);
            assert forall|i: int| 0 <= i < digits.len() implies more[i] == digits[i] by {}
            if forall|i: int| 0 <= i < digits.len() ==> is_digit(#[trigger] digits[i]) {
                if is_digit(byte) {
                    assert forall|i: int| 0 <= i < more.len() implies is_digit(#[trigger] more[i]) by {
                        if i < digits.len() {
                            assert(is_digit(digits[i]));
                        }
                    }
                }
            } else {
                let i = choose|i: int| 0 <= i < digits.len() && !is_digit(#[trigger] digits[i]);
                assert(!is_digit(more[i]));
            }
        }
    }
}

} // verus!
