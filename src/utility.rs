//! Percent-encoding helpers shared by path segments.
use vstd::prelude::*;

verus! {

/// The unreserved characters of a URI: letters, digits, `-`, `.`, `_` and `~`.
pub open spec fn is_unreserved(b: u8) -> bool {
    (0x30 <= b && b <= 0x39) || (0x41 <= b && b <= 0x5a) || (0x61 <= b && b <= 0x7a) || b
        == 0x2d || b == 0x2e || b == 0x5f || b == 0x7e
}

pub open spec fn lower(b: u8) -> u8 {
    if 0x41 <= b && b <= 0x5a {
        (b + 32) as u8
    } else {
        b
    }
}

pub open spec fn upper(b: u8) -> u8 {
    if 0x61 <= b && b <= 0x7a {
        (b - 32) as u8
    } else {
        b
    }
}

/// The value of one hex digit, and whether it is written in upper case (digits count as upper).
pub open spec fn hex_digit(d: u8) -> Option<(u8, bool)> {
    if 0x41 <= d && d <= 0x46 {
        Some(((d - 0x41 + 10) as u8, true))
    } else if 0x61 <= d && d <= 0x66 {
        Some(((d - 0x61 + 10) as u8, false))
    } else if 0x30 <= d && d <= 0x39 {
        Some(((d - 0x30) as u8, true))
    } else {
        None
    }
}

/// The byte that two hex digits encode, and whether both digits are upper case.
pub open spec fn percent_value(first: Option<u8>, second: Option<u8>) -> Result<(u8, bool), ()> {
    match (first, second) {
        (Some(a), Some(b)) => match (hex_digit(a), hex_digit(b)) {
            (Some(x), Some(y)) => Ok(((x.0 * 16 + y.0) as u8, x.1 && y.1)),
            _ => Err(()),
        },
        _ => Err(()),
    }
}

pub open spec fn at(s: Seq<u8>, i: int) -> Option<u8> {
    if 0 <= i < s.len() {
        Some(s[i])
    } else {
        None
    }
}

/// Whether the escape `%` `first` `second` stands for `byte`.
pub open spec fn escape_matches(byte: u8, first: Option<u8>, second: Option<u8>, case_sensitive: bool) -> bool {
    is_unreserved(byte) && match percent_value(first, second) {
        Ok((h, _)) => if case_sensitive {
            h == byte
        } else {
            lower(h) == lower(byte)
        },
        Err(_) => false,
    }
}

/// Equality of two percent-encoded byte strings, where an escape of an unreserved byte equals
/// that byte.
pub open spec fn percent_eq(l: Seq<u8>, r: Seq<u8>, case_sensitive: bool) -> bool
    decreases l.len() + r.len(),
{
    if l.len() == 0 {
        r.len() == 0
    } else if r.len() == 0 {
        false
    } else if l[0] == 0x25 && r[0] == 0x25 {
        percent_eq(l.drop_first(), r.drop_first(), case_sensitive)
    } else if l[0] == 0x25 {
        if l.len() >= 3 && escape_matches(r[0], at(l, 1), at(l, 2), case_sensitive) {
            percent_eq(l.subrange(3, l.len() as int), r.drop_first(), case_sensitive)
        } else {
            false
        }
    } else if r[0] == 0x25 {
        if r.len() >= 3 && escape_matches(l[0], at(r, 1), at(r, 2), case_sensitive) {
            percent_eq(l.drop_first(), r.subrange(3, r.len() as int), case_sensitive)
        } else {
            false
        }
    } else if case_sensitive {
        l[0] == r[0] && percent_eq(l.drop_first(), r.drop_first(), case_sensitive)
    } else {
        lower(l[0]) == lower(r[0]) && percent_eq(l.drop_first(), r.drop_first(), case_sensitive)
    }
}

/// Every `%` starts an escape of two hex digits.
pub open spec fn well_encoded(v: Seq<u8>) -> bool
    decreases v.len(),
{
    if v.len() == 0 {
        true
    } else if v[0] == 0x25 {
        v.len() >= 3 && percent_value(at(v, 1), at(v, 2)) is Ok && well_encoded(
            v.subrange(3, v.len() as int),
        )
    } else {
        well_encoded(v.drop_first())
    }
}

/// The canonical form of a well-encoded string: escapes of unreserved bytes are decoded, other
/// escapes get upper-case digits, and other bytes are lowered unless `case_sensitive`.
pub open spec fn normalized_form(v: Seq<u8>, case_sensitive: bool) -> Seq<u8>
    decreases v.len(),
{
    if v.len() == 0 {
        Seq::empty()
    } else if v[0] == 0x25 && v.len() >= 3 {
        let h = percent_value(at(v, 1), at(v, 2))->Ok_0.0;
        let rest = normalized_form(v.subrange(3, v.len() as int), case_sensitive);
        if is_unreserved(h) {
            seq![h] + rest
        } else {
            seq![0x25, upper(v[1]), upper(v[2])] + rest
        }
    } else {
        let b = if case_sensitive {
            v[0]
        } else {
            lower(v[0])
        };
        seq![b] + normalized_form(v.drop_first(), case_sensitive)
    }
}

/// The bytes a hasher is fed for a well-encoded string: like `normalized_form`, but without
/// case sensitivity a decoded byte is lowered too.
pub open spec fn hash_form(v: Seq<u8>, case_sensitive: bool) -> Seq<u8>
    decreases v.len(),
{
    if v.len() == 0 {
        Seq::empty()
    } else if v[0] == 0x25 && v.len() >= 3 {
        let h = percent_value(at(v, 1), at(v, 2))->Ok_0.0;
        let rest = hash_form(v.subrange(3, v.len() as int), case_sensitive);
        if !is_unreserved(h) {
            seq![0x25, upper(v[1]), upper(v[2])] + rest
        } else if case_sensitive {
            seq![h] + rest
        } else {
            seq![lower(h)] + rest
        }
    } else {
        let b = if case_sensitive {
            v[0]
        } else {
            lower(v[0])
        };
        seq![b] + hash_form(v.drop_first(), case_sensitive)
    }
}

pub fn is_unreserved_byte(b: u8) -> (r: bool)
    ensures
        r == is_unreserved(b),
{
    (0x30 <= b && b <= 0x39) || (0x41 <= b && b <= 0x5a) || (0x61 <= b && b <= 0x7a) || b
        == 0x2d || b == 0x2e || b == 0x5f || b == 0x7e
}

pub fn ascii_lowercase(b: u8) -> (r: u8)
    ensures
        r == lower(b),
{
    if 0x41 <= b && b <= 0x5a {
        b + 32
    } else {
        b
    }
}

pub fn ascii_uppercase(b: u8) -> (r: u8)
    ensures
        r == upper(b),
{
    if 0x61 <= b && b <= 0x7a {
        b - 32
    } else {
        b
    }
}

fn hex_digit_to_decimal(digit: u8) -> (r: Result<(u8, bool), ()>)
    ensures
        r is Ok <==> hex_digit(digit) is Some,
        r is Ok ==> r->Ok_0 == hex_digit(digit)->Some_0,
        r is Ok ==> r->Ok_0.0 < 16,
{
    if digit >= 0x41 && digit <= 0x46 {
        Ok((digit - 0x41 + 10, true))
    } else if digit >= 0x61 && digit <= 0x66 {
        Ok((digit - 0x61 + 10, false))
    } else if digit >= 0x30 && digit <= 0x39 {
        Ok((digit - 0x30, true))
    } else {
        Err(())
    }
}

/// Decodes the two hex digits of an escape into the byte they stand for, and whether both are
/// upper case.
pub fn get_percent_encoded_value(first_digit: Option<u8>, second_digit: Option<u8>) -> (r: Result<
    (u8, bool),
    (),
>)
    ensures
        r == percent_value(first_digit, second_digit),
{
    match (first_digit, second_digit) {
        (Some(first_digit), Some(second_digit)) => {
            let first = hex_digit_to_decimal(first_digit);
            let second = hex_digit_to_decimal(second_digit);
            match (first, second) {
                (Ok(f), Ok(s)) => {
                    let hex_value = f.0 * 16 + s.0;
                    Ok((hex_value, f.1 && s.1))
                },
                _ => Err(()),
            }
        },
        _ => Err(()),
    }
}

fn opt_byte(v: &[u8], i: usize, k: usize) -> (r: Option<u8>)
    requires
        i < v@.len(),
        k <= 2,
    ensures
        r == at(v@, i + k),
{
    if v.len() - i > k {
        Some(v[i + k])
    } else {
        None
    }
}

fn percent_encoded_equality_helper(
    byte: u8,
    first_digit: Option<u8>,
    second_digit: Option<u8>,
    case_sensitive: bool,
) -> (r: bool)
    ensures
        r == escape_matches(byte, first_digit, second_digit, case_sensitive),
{
    if !is_unreserved_byte(byte) {
        return false;
    }
    match get_percent_encoded_value(first_digit, second_digit) {
        Ok((hex_value, _)) => {
            if case_sensitive {
                hex_value == byte
            } else {
                ascii_lowercase(hex_value) == ascii_lowercase(byte)
            }
        },
        Err(_) => false,
    }
}

/// Compares two percent-encoded byte strings, where an escape of an unreserved byte equals that
/// byte (`"%61"` equals `"a"`), and letters compare without case unless `case_sensitive`.
pub fn percent_encoded_equality(left: &[u8], right: &[u8], case_sensitive: bool) -> (r: bool)
    ensures
        r == percent_eq(left@, right@, case_sensitive),
{
    let mut i: usize = 0;
    let mut j: usize = 0;
    assert(left@.subrange(0, left.len() as int) =~= left@);
    assert(right@.subrange(0, right.len() as int) =~= right@);
    while i < left.len() || j < right.len()
        invariant
            i <= left.len(),
            j <= right.len(),
            percent_eq(left@, right@, case_sensitive) == percent_eq(
                left@.subrange(i as int, left.len() as int),
                right@.subrange(j as int, right.len() as int),
                case_sensitive,
            ),
        decreases left.len() + right.len() - i - j,
    {
        let ghost l = left@.subrange(i as int, left.len() as int);
        let ghost r = right@.subrange(j as int, right.len() as int);
        if i == left.len() || j == right.len() {
            return false;
        }
        assert(l.drop_first() =~= left@.subrange(i + 1, left.len() as int));
        assert(r.drop_first() =~= right@.subrange(j + 1, right.len() as int));
        let lb = left[i];
        let rb = right[j];
        if lb == 0x25 && rb == 0x25 {
            i = i + 1;
            j = j + 1;
        } else if lb == 0x25 {
            let f = opt_byte(left, i, 1);
            let s = opt_byte(left, i, 2);
            assert(at(l, 1) == f && at(l, 2) == s);
            if !percent_encoded_equality_helper(rb, f, s, case_sensitive) {
                return false;
            }
            assert(l.subrange(3, l.len() as int) =~= left@.subrange(i + 3, left.len() as int));
            i = i + 3;
            j = j + 1;
        } else if rb == 0x25 {
            let f = opt_byte(right, j, 1);
            let s = opt_byte(right, j, 2);
            assert(at(r, 1) == f && at(r, 2) == s);
            if !percent_encoded_equality_helper(lb, f, s, case_sensitive) {
                return false;
            }
            assert(r.subrange(3, r.len() as int) =~= right@.subrange(j + 3, right.len() as int));
            i = i + 1;
            j = j + 3;
        } else {
            let equal = if case_sensitive {
                lb == rb
            } else {
                ascii_lowercase(lb) == ascii_lowercase(rb)
            };
            if !equal {
                return false;
            }
            i = i + 1;
            j = j + 1;
        }
    }
    assert(left@.subrange(i as int, left.len() as int).len() == 0);
    true
}

/// Checks that every `%` of `value` starts an escape of two hex digits.
pub fn is_well_encoded(value: &[u8]) -> (r: bool)
    ensures
        r == well_encoded(value@),
{
    let mut i: usize = 0;
    assert(value@.subrange(0, value.len() as int) =~= value@);
    while i < value.len()
        invariant
            i <= value.len(),
            well_encoded(value@) == well_encoded(value@.subrange(i as int, value.len() as int)),
        decreases value.len() - i,
    {
        let ghost v = value@.subrange(i as int, value.len() as int);
        if value[i] == 0x25 {
            if value.len() - i < 3 {
                return false;
            }
            assert(at(v, 1) == Some(value[i + 1] as u8) && at(v, 2) == Some(value[i + 2] as u8));
            if get_percent_encoded_value(Some(value[i + 1]), Some(value[i + 2])).is_err() {
                return false;
            }
            assert(v.subrange(3, v.len() as int) =~= value@.subrange(i + 3, value.len() as int));
            i = i + 3;
        } else {
            assert(v.drop_first() =~= value@.subrange(i + 1, value.len() as int));
            i = i + 1;
        }
    }
    assert(value@.subrange(i as int, value.len() as int).len() == 0);
    true
}

/// The bytes whose hash stands for a well-encoded `value`: values that compare equal under
/// `percent_encoded_equality` give the same bytes, so hashing them agrees with that equality.
pub fn percent_encoded_hash(value: &[u8], case_sensitive: bool) -> (r: Vec<u8>)
    requires
        well_encoded(value@),
    ensures
        r@ == hash_form(value@, case_sensitive),
{
    let mut out: Vec<u8> = Vec::new();
    let mut i: usize = 0;
    assert(value@.subrange(0, value.len() as int) =~= value@);
    while i < value.len()
        invariant
            i <= value.len(),
            well_encoded(value@.subrange(i as int, value.len() as int)),
            hash_form(value@, case_sensitive) == out@ + hash_form(
                value@.subrange(i as int, value.len() as int),
                case_sensitive,
            ),
        decreases value.len() - i,
    {
        let ghost v = value@.subrange(i as int, value.len() as int);
        let ghost before = out@;
        let byte = value[i];
        if byte == 0x25 {
            let first = value[i + 1];
            let second = value[i + 2];
            assert(at(v, 1) == Some(first) && at(v, 2) == Some(second));
            let hv = get_percent_encoded_value(Some(first), Some(second));
            let hex_value = match hv {
                Ok((h, _)) => h,
                Err(_) => 0,
            };
            if !is_unreserved_byte(hex_value) {
                out.push(0x25);
                out.push(ascii_uppercase(first));
                out.push(ascii_uppercase(second));
            } else if case_sensitive {
                out.push(hex_value);
            } else {
                out.push(ascii_lowercase(hex_value));
            }
            assert(v.subrange(3, v.len() as int) =~= value@.subrange(i + 3, value.len() as int));
            assert(out@ =~= before + (out@.subrange(before.len() as int, out@.len() as int)));
            i = i + 3;
        } else {
            if case_sensitive {
                out.push(byte);
            } else {
                out.push(ascii_lowercase(byte));
            }
            assert(v.drop_first() =~= value@.subrange(i + 1, value.len() as int));
            i = i + 1;
        }
        assert(hash_form(value@, case_sensitive) == out@ + hash_form(
            value@.subrange(i as int, value.len() as int),
            case_sensitive,
        )) by {
            assert(hash_form(v, case_sensitive) =~= out@.subrange(
                before.len() as int,
                out@.len() as int,
            ) + hash_form(value@.subrange(i as int, value.len() as int), case_sensitive));
            assert(out@ =~= before + out@.subrange(before.len() as int, out@.len() as int));
        }
    }
    assert(value@.subrange(i as int, value.len() as int).len() == 0);
    assert(out@ + Seq::<u8>::empty() =~= out@);
    out
}

/// Normalizes a well-encoded string: escapes of unreserved bytes are decoded, other escapes get
/// upper-case digits, and without `case_sensitive` other bytes are lowered.
pub fn normalize_string(value: &[u8], case_sensitive: bool) -> (r: Vec<u8>)
    requires
        well_encoded(value@),
    ensures
        r@ == normalized_form(value@, case_sensitive),
{
    let mut out: Vec<u8> = Vec::new();
    let mut i: usize = 0;
    assert(value@.subrange(0, value.len() as int) =~= value@);
    while i < value.len()
        invariant
            i <= value.len(),
            well_encoded(value@.subrange(i as int, value.len() as int)),
            normalized_form(value@, case_sensitive) == out@ + normalized_form(
                value@.subrange(i as int, value.len() as int),
                case_sensitive,
            ),
        decreases value.len() - i,
    {
        let ghost v = value@.subrange(i as int, value.len() as int);
        let ghost before = out@;
        let byte = value[i];
        if byte == 0x25 {
            let first = value[i + 1];
            let second = value[i + 2];
            assert(at(v, 1) == Some(first) && at(v, 2) == Some(second));
            let hv = get_percent_encoded_value(Some(first), Some(second));
            let hex_value = match hv {
                Ok((h, _)) => h,
                Err(_) => 0,
            };
            if is_unreserved_byte(hex_value) {
                out.push(hex_value);
            } else {
                out.push(0x25);
                out.push(ascii_uppercase(first));
                out.push(ascii_uppercase(second));
            }
            assert(v.subrange(3, v.len() as int) =~= value@.subrange(i + 3, value.len() as int));
            i = i + 3;
        } else {
            if case_sensitive {
                out.push(byte);
            } else {
                out.push(ascii_lowercase(byte));
            }
            assert(v.drop_first() =~= value@.subrange(i + 1, value.len() as int));
            i = i + 1;
        }
        assert(normalized_form(value@, case_sensitive) == out@ + normalized_form(
            value@.subrange(i as int, value.len() as int),
            case_sensitive,
        )) by {
            assert(normalized_form(v, case_sensitive) =~= out@.subrange(
                before.len() as int,
                out@.len() as int,
            ) + normalized_form(value@.subrange(i as int, value.len() as int), case_sensitive));
            assert(out@ =~= before + out@.subrange(before.len() as int, out@.len() as int));
        }
    }
    assert(value@.subrange(i as int, value.len() as int).len() == 0);
    assert(out@ + Seq::<u8>::empty() =~= out@);
    out
}


proof fn lemma_hex_digits_alike(d: u8, e: u8, case_sensitive: bool)
    requires
        hex_digit(d) is Some,
        hex_digit(e) is Some,
        if case_sensitive {
            d == e
        } else {
            lower(d) == lower(e)
        },
    ensures
        hex_digit(d)->Some_0.0 == hex_digit(e)->Some_0.0,
        upper(d) == upper(e),
{
}

/// Values that compare equal under `percent_encoded_equality` give the same bytes to hash, so
/// hashing through `percent_encoded_hash` agrees with that equality.
pub proof fn lemma_equal_values_hash_alike(l: Seq<u8>, r: Seq<u8>, case_sensitive: bool)
    requires
        well_encoded(l),
        well_encoded(r),
        percent_eq(l, r, case_sensitive),
    ensures
        hash_form(l, case_sensitive) == hash_form(r, case_sensitive),
    decreases l.len() + r.len(),
{
    let cs = case_sensitive;
    if l.len() == 0 || r.len() == 0 {
        assert(l.len() == 0 && r.len() == 0);
    } else if l[0] == 0x25 && r[0] == 0x25 {
        let l1 = l.drop_first();
        let r1 = r.drop_first();
        let l2 = l1.drop_first();
        let r2 = r1.drop_first();
        let l3 = l.subrange(3, l.len() as int);
        let r3 = r.subrange(3, r.len() as int);
        assert(l2.drop_first() =~= l3);
        assert(r2.drop_first() =~= r3);
        assert(l1[0] == l[1] && r1[0] == r[1] && l2[0] == l[2] && r2[0] == r[2]);
        assert(at(l, 1) == Some(l[1]) && at(l, 2) == Some(l[2]));
        assert(at(r, 1) == Some(r[1]) && at(r, 2) == Some(r[2]));
        assert(hex_digit(l[1]) is Some && hex_digit(l[2]) is Some);
        assert(hex_digit(r[1]) is Some && hex_digit(r[2]) is Some);
        assert(percent_eq(l1, r1, cs));
        assert(percent_eq(l2, r2, cs));
        assert(percent_eq(l3, r3, cs));
        lemma_hex_digits_alike(l[1], r[1], cs);
        lemma_hex_digits_alike(l[2], r[2], cs);
        lemma_equal_values_hash_alike(l3, r3, cs);
    } else if l[0] == 0x25 {
        let l3 = l.subrange(3, l.len() as int);
        assert(percent_eq(l3, r.drop_first(), cs));
        lemma_equal_values_hash_alike(l3, r.drop_first(), cs);
        assert(r[0] != 0x25);
    } else if r[0] == 0x25 {
        let r3 = r.subrange(3, r.len() as int);
        assert(percent_eq(l.drop_first(), r3, cs));
        lemma_equal_values_hash_alike(l.drop_first(), r3, cs);
    } else {
        lemma_equal_values_hash_alike(l.drop_first(), r.drop_first(), cs);
    }
}

} // verus!
