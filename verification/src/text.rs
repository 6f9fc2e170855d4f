//! Byte-level text utilities shared by the samplers: splitting counter text
//! into lines, splitting a line into whitespace-separated fields, and parsing
//! unsigned decimal numbers.

use vstd::prelude::*;

verus! {

/// ASCII whitespace, as `str::split_whitespace` sees it within a line.
pub open spec fn is_space(b: u8) -> bool {
    b == 32 || (9 <= b && b <= 13)
}

/// Newline byte, the line separator of the counter text.
pub open spec fn is_newline(b: u8) -> bool {
    b == 10
}

/// The views of a sequence of byte vectors.
pub open spec fn views_of(v: Seq<Vec<u8>>) -> Seq<Seq<u8>> {
    v.map_values(|x: Vec<u8>| x@)
}

proof fn lemma_views_of_empty()
    ensures
        views_of(Seq::<Vec<u8>>::empty()) == Seq::<Seq<u8>>::empty(),
{
    assert(views_of(Seq::<Vec<u8>>::empty()) =~= Seq::<Seq<u8>>::empty());
}

proof fn lemma_views_of_push(v: Seq<Vec<u8>>, x: Vec<u8>)
    ensures
        views_of(v.push(x)) == views_of(v).push(x@),
{
    assert(views_of(v.push(x)) =~= views_of(v).push(x@));
}

/// The lines of `s`, accumulated left to right; `cur` holds the bytes of the
/// line read so far. A trailing newline does not open a final empty line.
pub open spec fn lines_rec(s: Seq<u8>, cur: Seq<u8>) -> Seq<Seq<u8>>
    decreases s.len(),
{
    if s.len() == 0 {
        if cur.len() == 0 {
            Seq::empty()
        } else {
            seq![cur]
        }
    } else if is_newline(s[0]) {
        seq![cur] + lines_rec(s.skip(1), Seq::empty())
    } else {
        lines_rec(s.skip(1), cur.push(s[0]))
    }
}

/// `s` split at newlines, without a trailing empty line.
pub open spec fn spec_lines(s: Seq<u8>) -> Seq<Seq<u8>> {
    lines_rec(s, Seq::empty())
}

/// The whitespace-separated fields of `s`, accumulated left to right; `cur`
/// holds the bytes of the field read so far.
pub open spec fn fields_rec(s: Seq<u8>, cur: Seq<u8>) -> Seq<Seq<u8>>
    decreases s.len(),
{
    if s.len() == 0 {
        if cur.len() == 0 {
            Seq::empty()
        } else {
            seq![cur]
        }
    } else if is_space(s[0]) {
        if cur.len() == 0 {
            fields_rec(s.skip(1), Seq::empty())
        } else {
            seq![cur] + fields_rec(s.skip(1), Seq::empty())
        }
    } else {
        fields_rec(s.skip(1), cur.push(s[0]))
    }
}

/// The whitespace-separated fields of `s`; every field is non-empty.
pub open spec fn spec_fields(s: Seq<u8>) -> Seq<Seq<u8>> {
    fields_rec(s, Seq::empty())
}

/// Split `s` at newline bytes, dropping a final empty piece, exactly as
/// `spec_lines` describes.
pub fn split_lines(s: &[u8]) -> (r: Vec<Vec<u8>>)
    ensures
        views_of(r@) == spec_lines(s@),
{
    let mut out: Vec<Vec<u8>> = Vec::new();
    let mut cur: Vec<u8> = Vec::new();
    let mut i: usize = 0;
    proof {
        lemma_views_of_empty();
        assert(s@.skip(0) =~= s@);
        assert(Seq::<Seq<u8>>::empty() + lines_rec(s@, Seq::empty()) =~= lines_rec(
            s@,
            Seq::empty(),
        ));
    }
    while i < s.len()
        invariant
            i <= s@.len(),
            spec_lines(s@) == views_of(out@) + lines_rec(s@.skip(i as int), cur@),
        decreases s@.len() - i,
    {
        let ghost prev_out = out@;
        let ghost prev_cur = cur@;
        let b = s[i];
        proof {
            assert(s@.skip(i as int)[0] == b);
            assert(s@.skip(i as int).skip(1) =~= s@.skip(i + 1));
        }
        if b == 10 {
            out.push(cur);
            cur = Vec::new();
            proof {
                lemma_views_of_push(prev_out, out@.last());
                assert(views_of(prev_out).push(prev_cur) + lines_rec(s@.skip(i + 1), cur@)
                    =~= views_of(prev_out) + (seq![prev_cur] + lines_rec(s@.skip(i + 1), cur@)));
            }
        } else {
            cur.push(b);
        }
        i = i + 1;
    }
    proof {
        assert(s@.skip(i as int) =~= Seq::<u8>::empty());
    }
    let ghost prev_out = out@;
    let ghost prev_cur = cur@;
    if cur.len() > 0 {
        out.push(cur);
        proof {
            lemma_views_of_push(prev_out, out@.last());
            assert(views_of(prev_out).push(prev_cur) =~= views_of(prev_out) + seq![prev_cur]);
        }
    } else {
        proof {
            assert(views_of(out@) + Seq::<Seq<u8>>::empty() =~= views_of(out@));
        }
    }
    out
}

/// Split `s` at runs of ASCII whitespace, exactly as `spec_fields` describes.
pub fn split_fields(s: &[u8]) -> (r: Vec<Vec<u8>>)
    ensures
        views_of(r@) == spec_fields(s@),
{
    let mut out: Vec<Vec<u8>> = Vec::new();
    let mut cur: Vec<u8> = Vec::new();
    let mut i: usize = 0;
    proof {
        lemma_views_of_empty();
        assert(s@.skip(0) =~= s@);
        assert(Seq::<Seq<u8>>::empty() + fields_rec(s@, Seq::empty()) =~= fields_rec(
            s@,
            Seq::empty(),
        ));
    }
    while i < s.len()
        invariant
            i <= s@.len(),
            spec_fields(s@) == views_of(out@) + fields_rec(s@.skip(i as int), cur@),
        decreases s@.len() - i,
    {
        let ghost prev_out = out@;
        let ghost prev_cur = cur@;
        let b = s[i];
        proof {
            assert(s@.skip(i as int)[0] == b);
            assert(s@.skip(i as int).skip(1) =~= s@.skip(i + 1));
        }
        if b == 32 || (9 <= b && b <= 13) {
            if cur.len() > 0 {
                out.push(cur);
                cur = Vec::new();
                proof {
                    lemma_views_of_push(prev_out, out@.last());
                    assert(views_of(prev_out).push(prev_cur) + fields_rec(s@.skip(i + 1), cur@)
                        =~= views_of(prev_out) + (seq![prev_cur] + fields_rec(
                        s@.skip(i + 1),
                        cur@,
                    )));
                }
            } else {
                proof {
                    assert(cur@ =~= Seq::<u8>::empty());
                }
            }
        } else {
            cur.push(b);
        }
        i = i + 1;
    }
    proof {
        assert(s@.skip(i as int) =~= Seq::<u8>::empty());
    }
    let ghost prev_out = out@;
    let ghost prev_cur = cur@;
    if cur.len() > 0 {
        out.push(cur);
        proof {
            lemma_views_of_push(prev_out, out@.last());
            assert(views_of(prev_out).push(prev_cur) =~= views_of(prev_out) + seq![prev_cur]);
        }
    } else {
        proof {
            assert(views_of(out@) + Seq::<Seq<u8>>::empty() =~= views_of(out@));
        }
    }
    out
}

/// ASCII decimal digit.
pub open spec fn is_digit(b: u8) -> bool {
    48 <= b && b <= 57
}

/// Every byte of `s` is a decimal digit.
pub open spec fn all_digits(s: Seq<u8>) -> bool {
    forall|i: int| 0 <= i < s.len() ==> is_digit(s[i])
}

/// The number the digit string `s` denotes, most significant digit first.
pub open spec fn digits_val(s: Seq<u8>) -> nat
    decreases s.len(),
{
    if s.len() == 0 {
        0
    } else {
        digits_val(s.drop_last()) * 10 + (s.last() - 48) as nat
    }
}

/// A digit string denotes at least what any of its prefixes denotes.
proof fn lemma_digits_val_prefix_le(s: Seq<u8>, j: int)
    requires
        0 <= j <= s.len(),
    ensures
        digits_val(s.take(j)) <= digits_val(s),
    decreases s.len() - j,
{
    if j == s.len() {
        assert(s.take(j) =~= s);
    } else {
        assert(s.take(j + 1).drop_last() =~= s.take(j));
        assert(s.take(j + 1).last() == s[j]);
        assert(digits_val(s.take(j)) * 10 >= digits_val(s.take(j)));
        lemma_digits_val_prefix_le(s, j + 1);
    }
}

/// Parse `s` as an unsigned decimal number. `None` exactly when `s` is empty,
/// holds a non-digit byte, or denotes a number above `u64::MAX`.
pub fn parse_u64(s: &[u8]) -> (r: Option<u64>)
    ensures
        match r {
            Some(v) => s@.len() > 0 && all_digits(s@) && v == digits_val(s@),
            None => s@.len() == 0 || !all_digits(s@) || digits_val(s@) > u64::MAX,
        },
{
    if s.len() == 0 {
        return None;
    }
    let mut acc: u64 = 0;
    let mut i: usize = 0;
    while i < s.len()
        invariant
            0 < s@.len(),
            i <= s@.len(),
            all_digits(s@.take(i as int)),
            acc == digits_val(s@.take(i as int)),
        decreases s@.len() - i,
    {
        let b = s[i];
        if b < 48 || b > 57 {
            return None;
        }
        proof {
            assert(s@.take(i + 1).drop_last() =~= s@.take(i as int));
            assert(s@.take(i + 1).last() == s@[i as int]);
        }
        let d = (b - 48) as u64;
        let next = match acc.checked_mul(10) {
            Some(m) => m.checked_add(d),
            None => None,
        };
        match next {
            Some(n) => {
                acc = n;
            },
            None => {
                proof {
                    assert(digits_val(s@.take(i + 1)) > u64::MAX);
                    if all_digits(s@) {
                        lemma_digits_val_prefix_le(s@, i + 1);
                    }
                }
                return None;
            },
        }
        i = i + 1;
    }
    proof {
        assert(s@.take(i as int) =~= s@);
    }
    Some(acc)
}

/// Byte-for-byte equality of two slices.
pub fn bytes_eq(a: &[u8], b: &[u8]) -> (r: bool)
    ensures
        r == (a@ == b@),
{
    if a.len() != b.len() {
        proof {
            if a@ == b@ {
                assert(a@.len() == b@.len());
            }
        }
        return false;
    }
    let mut i: usize = 0;
    while i < a.len()
        invariant
            i <= a@.len(),
            a@.len() == b@.len(),
            forall|j: int| 0 <= j < i ==> a@[j] == b@[j],
        decreases a@.len() - i,
    {
        if a[i] != b[i] {
            proof {
                if a@ == b@ {
                    assert(a@[i as int] == b@[i as int]);
                }
            }
            return false;
        }
        i = i + 1;
    }
    proof {
        assert(a@ =~= b@);
    }
    true
}

} // verus!
