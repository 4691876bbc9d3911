//! Byte-level helpers for volume file names.
//!
//! A volume's files are named `<id>.data` and `<id>.index`: a decimal id
//! as the file stem, the file's role as the extension. These helpers pull
//! a name apart and parse the id, working on the UTF-8 bytes of a path.

use vstd::prelude::*;

verus! {

/// Whether two byte strings hold the same bytes.
pub fn bytes_eq(a: &[u8], b: &[u8]) -> (r: bool)
    ensures
        r == (a@ == b@),
{
    if a.len() != b.len() {
        proof {
            assert(a@.len() != b@.len());
        }
        return false;
    }
    let mut i: usize = 0;
    while i < a.len()
        invariant
            0 <= i <= a@.len(),
            a@.len() == b@.len(),
            forall|j: int| 0 <= j < i ==> a@[j] == b@[j],
        decreases a@.len() - i,
    {
        if a[i] != b[i] {
            return false;
        }
        i = i + 1;
    }
    proof {
        assert(a@ =~= b@);
    }
    true
}

/// The largest position holding `target`, scanning from the back.
pub open spec fn spec_rfind(bytes: Seq<u8>, target: u8) -> Option<int>
    decreases bytes.len(),
{
    if bytes.len() == 0 {
        None
    } else if bytes.last() == target {
        Some(bytes.len() - 1)
    } else {
        spec_rfind(bytes.drop_last(), target)
    }
}

/// Find the last occurrence of `target` in `bytes`.
pub fn rfind_byte(bytes: &[u8], target: u8) -> (r: Option<usize>)
    ensures
        match r {
            Some(i) => i < bytes@.len() && spec_rfind(bytes@, target) == Some(i as int),
            None => spec_rfind(bytes@, target) is None,
        },
{
    let mut i: usize = bytes.len();
    proof {
        assert(bytes@.take(bytes@.len() as int) =~= bytes@);
    }
    while i > 0
        invariant
            0 <= i <= bytes@.len(),
            spec_rfind(bytes@, target) == spec_rfind(bytes@.take(i as int), target),
        decreases i,
    {
        if bytes[i - 1] == target {
            proof {
                assert(bytes@.take(i as int).last() == bytes@[i - 1]);
            }
            return Some(i - 1);
        }
        proof {
            assert(bytes@.take(i as int).drop_last() =~= bytes@.take(i - 1));
        }
        i = i - 1;
    }
    proof {
        assert(bytes@.take(0) =~= Seq::<u8>::empty());
    }
    None
}

/// The file-name part of a path: everything after the last separator.
pub open spec fn spec_file_name(path: Seq<u8>) -> Seq<u8> {
    match spec_rfind(path, '/' as u8) {
        Some(i) => path.skip(i + 1),
        None => path,
    }
}

/// The extension of a path's file name: everything after the name's last
/// dot, or nothing when the name has no dot.
pub open spec fn spec_extension(path: Seq<u8>) -> Option<Seq<u8>> {
    let name = spec_file_name(path);
    match spec_rfind(name, '.' as u8) {
        Some(i) => Some(name.skip(i + 1)),
        None => None,
    }
}

/// The stem of a path's file name: the name up to its last dot, or the
/// whole name when it has no dot.
pub open spec fn spec_file_stem(path: Seq<u8>) -> Seq<u8> {
    let name = spec_file_name(path);
    match spec_rfind(name, '.' as u8) {
        Some(i) => name.subrange(0, i),
        None => name,
    }
}

/// The bytes of the index-file extension, `index`.
pub open spec fn spec_index_extension() -> Seq<u8> {
    seq!['i' as u8, 'n' as u8, 'd' as u8, 'e' as u8, 'x' as u8]
}

/// The bytes of the data-file extension, `data`.
pub open spec fn spec_data_extension() -> Seq<u8> {
    seq!['d' as u8, 'a' as u8, 't' as u8, 'a' as u8]
}

/// The index-file extension as a byte vector.
pub fn index_extension() -> (r: Vec<u8>)
    ensures
        r@ == spec_index_extension(),
{
    let mut v: Vec<u8> = Vec::new();
    v.push('i' as u8);
    v.push('n' as u8);
    v.push('d' as u8);
    v.push('e' as u8);
    v.push('x' as u8);
    proof {
        assert(v@ =~= spec_index_extension());
    }
    v
}

/// The data-file extension as a byte vector.
pub fn data_extension() -> (r: Vec<u8>)
    ensures
        r@ == spec_data_extension(),
{
    let mut v: Vec<u8> = Vec::new();
    v.push('d' as u8);
    v.push('a' as u8);
    v.push('t' as u8);
    v.push('a' as u8);
    proof {
        assert(v@ =~= spec_data_extension());
    }
    v
}

/// The file name of `path` as a fresh byte vector.
pub fn file_name_bytes(path: &[u8]) -> (r: Vec<u8>)
    ensures
        r@ == spec_file_name(path@),
{
    let n = path.len();
    match rfind_byte(path, '/' as u8) {
        Some(i) => vstd::slice::slice_to_vec(vstd::slice::slice_subrange(path, i + 1, n)),
        None => vstd::slice::slice_to_vec(path),
    }
}

/// Whether `b` is a decimal digit.
pub open spec fn spec_is_digit(b: u8) -> bool {
    '0' as u8 <= b <= '9' as u8
}

/// Whether `s` is a non-empty run of decimal digits.
pub open spec fn spec_all_digits(s: Seq<u8>) -> bool {
    s.len() > 0 && forall|i: int| 0 <= i < s.len() ==> spec_is_digit(#[trigger] s[i])
}

/// The number a run of decimal digits denotes.
pub open spec fn spec_decimal_value(s: Seq<u8>) -> int
    decreases s.len(),
{
    if s.len() == 0 {
        0
    } else {
        spec_decimal_value(s.drop_last()) * 10 + (s.last() - ('0' as u8))
    }
}

/// A digit run's value is non-negative.
proof fn lemma_decimal_nonneg(s: Seq<u8>)
    requires
        forall|j: int| 0 <= j < s.len() ==> spec_is_digit(#[trigger] s[j]),
    ensures
        0 <= spec_decimal_value(s),
    decreases s.len(),
{
    if s.len() > 0 {
        assert(forall|j: int|
            0 <= j < s.drop_last().len() ==> spec_is_digit(#[trigger] s.drop_last()[j]));
        lemma_decimal_nonneg(s.drop_last());
    }
}

/// A digit run's value never shrinks as the run extends to the right.
proof fn lemma_decimal_prefix(s: Seq<u8>, i: int)
    requires
        0 <= i <= s.len(),
        forall|j: int| 0 <= j < s.len() ==> spec_is_digit(#[trigger] s[j]),
    ensures
        0 <= spec_decimal_value(s.take(i)),
        spec_decimal_value(s.take(i)) <= spec_decimal_value(s),
    decreases s.len() - i,
{
    assert(forall|j: int| 0 <= j < s.take(i).len() ==> spec_is_digit(#[trigger] s.take(i)[j]));
    lemma_decimal_nonneg(s.take(i));
    if i == s.len() {
        assert(s.take(i) =~= s);
    } else {
        lemma_decimal_prefix(s, i + 1);
        assert(s.take(i + 1).drop_last() =~= s.take(i));
        assert(s.take(i + 1).last() == s[i]);
        assert(spec_decimal_value(s.take(i + 1)) == spec_decimal_value(s.take(i)) * 10 + (s[i]
            - ('0' as u8)));
    }
}

/// Render a number as its decimal digits: non-empty, digits only, no
/// leading zero except for zero itself, and parsing back to the number.
pub fn render_decimal(value: u64) -> (r: Vec<u8>)
    ensures
        spec_all_digits(r@),
        spec_decimal_value(r@) == value,
        r@[0] == '0' as u8 ==> value == 0,
    decreases value,
{
    let digit = ('0' as u8) + (value % 10) as u8;
    if value < 10 {
        let mut r: Vec<u8> = Vec::new();
        r.push(digit);
        proof {
            assert(r@.drop_last() =~= Seq::<u8>::empty());
            assert(spec_decimal_value(Seq::<u8>::empty()) == 0);
        }
        r
    } else {
        let mut r = render_decimal(value / 10);
        let ghost prefix = r@;
        r.push(digit);
        proof {
            assert(r@.drop_last() =~= prefix);
            assert(spec_decimal_value(r@) == spec_decimal_value(prefix) * 10 + (digit
                - ('0' as u8)));
        }
        r
    }
}

/// Where the last occurrence of `target` is: at `i`, with none after it.
pub proof fn lemma_rfind_position(bytes: Seq<u8>, target: u8, i: int)
    requires
        0 <= i < bytes.len(),
        bytes[i] == target,
        forall|j: int| i < j < bytes.len() ==> bytes[j] != target,
    ensures
        spec_rfind(bytes, target) == Some(i),
    decreases bytes.len(),
{
    if i == bytes.len() - 1 {
    } else {
        assert(bytes.last() != target);
        lemma_rfind_position(bytes.drop_last(), target, i);
    }
}

/// A byte string without `target` has no last occurrence of it.
pub proof fn lemma_rfind_absent(bytes: Seq<u8>, target: u8)
    requires
        forall|j: int| 0 <= j < bytes.len() ==> bytes[j] != target,
    ensures
        spec_rfind(bytes, target) is None,
    decreases bytes.len(),
{
    if bytes.len() > 0 {
        lemma_rfind_absent(bytes.drop_last(), target);
    }
}

/// The name of a volume file: the decimal id as the stem, then a dot,
/// then the extension.
pub fn volume_file_name(id: u64, extension: &[u8]) -> (r: Vec<u8>)
    ensures
        r@ == spec_decimal_digits_of(r@, extension@) + seq!['.' as u8] + extension@,
        spec_all_digits(spec_decimal_digits_of(r@, extension@)),
        spec_decimal_value(spec_decimal_digits_of(r@, extension@)) == id,
{
    let mut r = render_decimal(id);
    let ghost digits = r@;
    r.push('.' as u8);
    r.extend_from_slice(extension);
    proof {
        assert(r@ =~= digits + seq!['.' as u8] + extension@);
        assert(spec_decimal_digits_of(r@, extension@) =~= digits);
    }
    r
}

/// The digit stem at the front of a volume file name built over a given
/// extension: everything before the dot that separates stem from
/// extension.
pub open spec fn spec_decimal_digits_of(name: Seq<u8>, extension: Seq<u8>) -> Seq<u8> {
    name.take(name.len() - extension.len() - 1)
}

/// A name built by `volume_file_name` parses back: when neither the
/// digits nor the extension can contain a separator or a dot, its file
/// stem is exactly the digit run, so the id round-trips through the file
/// name.
pub proof fn lemma_file_name_round_trip(digits: Seq<u8>, extension: Seq<u8>)
    requires
        spec_all_digits(digits),
        extension.len() > 0,
        forall|j: int| 0 <= j < extension.len() ==> extension[j] != '.' as u8,
        forall|j: int| 0 <= j < extension.len() ==> extension[j] != '/' as u8,
    ensures
        ({
            let name = digits + seq!['.' as u8] + extension;
            &&& spec_file_name(name) == name
            &&& spec_file_stem(name) == digits
            &&& spec_extension(name) == Some(extension)
        }),
{
    let name = digits + seq!['.' as u8] + extension;
    assert(forall|j: int| 0 <= j < digits.len() ==> '0' as u8 <= #[trigger] digits[j] <= '9' as u8);
    assert(forall|j: int| 0 <= j < name.len() ==> name[j] != '/' as u8);
    lemma_rfind_absent(name, '/' as u8);
    assert(spec_file_name(name) == name);
    lemma_rfind_position(name, '.' as u8, digits.len() as int);
    assert(spec_file_stem(name) =~= digits);
    assert(spec_extension(name).unwrap() =~= extension);
}

/// Derive the data-file path paired with an index-file path by swapping
/// the `index` extension for `data`, keeping the rest of the path as it
/// is.
pub fn sibling_data_path(index_path: &[u8]) -> (r: Vec<u8>)
    requires
        index_path@.len() >= spec_index_extension().len(),
        index_path@.skip(index_path@.len() - spec_index_extension().len())
            == spec_index_extension(),
    ensures
        r@ == index_path@.take(index_path@.len() - spec_index_extension().len())
            + spec_data_extension(),
{
    let n = index_path.len();
    let mut r = vstd::slice::slice_to_vec(vstd::slice::slice_subrange(index_path, 0, n - 5));
    let data = data_extension();
    r.extend_from_slice(data.as_slice());
    proof {
        assert(r@ =~= index_path@.take(index_path@.len() - spec_index_extension().len())
            + spec_data_extension());
    }
    r
}

/// Parse a non-empty run of decimal digits as an unsigned integer.
/// `None` when the run is empty, holds a non-digit, or denotes a number
/// too large for the result type.
pub fn parse_decimal(s: &[u8]) -> (r: Option<u64>)
    ensures
        match r {
            Some(v) => spec_all_digits(s@) && v == spec_decimal_value(s@) && spec_decimal_value(
                s@,
            ) <= u64::MAX,
            None => !spec_all_digits(s@) || spec_decimal_value(s@) > u64::MAX,
        },
{
    if s.len() == 0 {
        return None;
    }
    let mut value: u64 = 0;
    let mut i: usize = 0;
    while i < s.len()
        invariant
            0 <= i <= s@.len(),
            forall|j: int| 0 <= j < i ==> spec_is_digit(#[trigger] s@[j]),
            value == spec_decimal_value(s@.take(i as int)),
        decreases s@.len() - i,
    {
        let b = s[i];
        if b < '0' as u8 || b > '9' as u8 {
            return None;
        }
        let digit = (b - '0' as u8) as u64;
        let wide = value as u128 * 10 + digit as u128;
        proof {
            assert(s@.take(i + 1 as int).drop_last() =~= s@.take(i as int));
            assert(s@.take(i + 1 as int).last() == s@[i as int]);
        }
        if wide > u64::MAX as u128 {
            proof {
                assert(forall|j: int| 0 <= j < s@.len() ==> spec_is_digit(#[trigger] s@[j])
                    || !spec_all_digits(s@));
                if spec_all_digits(s@) {
                    lemma_decimal_prefix(s@, i + 1);
                }
            }
            return None;
        }
        value = wide as u64;
        i = i + 1;
    }
    proof {
        assert(s@.take(s@.len() as int) =~= s@);
    }
    Some(value)
}

} // verus!
