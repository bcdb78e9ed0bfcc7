//! Small facts and operations on text.
use vstd::prelude::*;
use vstd::string::{StringExecFns, StringSliceAdditionalSpecFns};

verus! {

broadcast use vstd::utf8::encode_utf8_decode_utf8;

/// The characters of `src`, in order.
pub fn chars_of(src: &str) -> (cs: Vec<char>)
    ensures
        cs@ == src@,
{
    let mut cs: Vec<char> = Vec::new();
    for c in it: src.chars()
        invariant
            cs@ == it.seq().take(it.index() as int),
    {
        cs.push(c);
    }
    cs
}

/// Whether two strings hold the same characters.
pub fn same_text(a: &str, b: &str) -> (r: bool)
    ensures
        r == (a@ == b@),
{
    let x = a.as_bytes();
    let y = b.as_bytes();
    if x.len() != y.len() {
        return false;
    }
    let mut i: usize = 0;
    while i < x.len()
        invariant
            x@ == a.spec_bytes(),
            y@ == b.spec_bytes(),
            x@.len() == y@.len(),
            i <= x.len(),
            forall|k: int| 0 <= k < i ==> x@[k] == y@[k],
        decreases x.len() - i,
    {
        if x[i] != y[i] {
            proof {
                if a@ == b@ {
                    assert(x@ == y@);
                }
            }
            return false;
        }
        i += 1;
    }
    proof {
        assert(x@ =~= y@);
        assert(a@ == vstd::utf8::decode_utf8(x@));
    }
    true
}

pub open spec fn is_digit(c: char) -> bool {
    '0' <= c && c <= '9'
}

/// A non-empty run of decimal digits.
pub open spec fn is_digits(s: Seq<char>) -> bool {
    s.len() > 0 && forall|i: int| 0 <= i < s.len() ==> is_digit(#[trigger] s[i])
}

/// The number that a run of decimal digits writes.
pub open spec fn digits_value(s: Seq<char>) -> nat
    decreases s.len(),
{
    if s.len() == 0 {
        0
    } else {
        10 * digits_value(s.drop_last()) + (s.last() as u32 - '0' as u32) as nat
    }
}

/// The number that `s` writes in decimal digits where it is at most 1000;
/// above 1000, some number above 1000. `None` where `s` is not a run of digits.
pub fn small_decimal(s: &str) -> (r: Option<u32>)
    ensures
        r is None <==> !is_digits(s@),
        r is Some && digits_value(s@) <= 1000 ==> r->Some_0 == digits_value(s@),
        r is Some && digits_value(s@) > 1000 ==> r->Some_0 > 1000,
{
    let cs = chars_of(s);
    if cs.len() == 0 {
        return None;
    }
    let mut acc: u32 = 0;
    let mut i: usize = 0;
    while i < cs.len()
        invariant
            i <= cs.len(),
            cs@ == s@,
            acc <= 10009,
            forall|k: int| 0 <= k < i ==> is_digit(#[trigger] cs@[k]),
            digits_value(cs@.take(i as int)) <= 1000 ==> acc == digits_value(cs@.take(i as int)),
            digits_value(cs@.take(i as int)) > 1000 ==> acc > 1000,
        decreases cs.len() - i,
    {
        let c = cs[i];
        if !('0' <= c && c <= '9') {
            proof {
                assert(!is_digit(s@[i as int]));
            }
            return None;
        }
        proof {
            assert(cs@.take(i + 1).drop_last() =~= cs@.take(i as int));
        }
        if acc <= 1000 {
            acc = acc * 10 + (c as u32 - '0' as u32);
        }
        i += 1;
    }
    proof {
        assert(cs@.take(cs.len() as int) =~= cs@);
    }
    Some(acc)
}

/// `ws` joined by single spaces.
pub fn join_with_spaces(ws: &Vec<String>, from: usize) -> (r: String)
    requires
        from < ws.len(),
    ensures
        r@ == join_words(crate::ast::strings_view(ws@).skip(from as int)),
{
    let ghost v = crate::ast::strings_view(ws@);
    let mut out = ws[from].clone();
    let mut k: usize = from + 1;
    proof {
        assert(v.subrange(from as int, k as int) =~= seq![v[from as int]]);
    }
    while k < ws.len()
        invariant
            from < k <= ws.len(),
            v == crate::ast::strings_view(ws@),
            out@ == join_words(v.subrange(from as int, k as int)),
        decreases ws.len() - k,
    {
        proof {
            let next = v.subrange(from as int, k + 1);
            assert(next.drop_last() =~= v.subrange(from as int, k as int));
            assert(next.last() == ws@[k as int]@);
            reveal_strlit(" ");
            assert(" "@ =~= seq![' ']);
        }
        out.append(" ");
        out.append(ws[k].as_str());
        k += 1;
    }
    proof {
        assert(v.subrange(from as int, ws.len() as int) =~= v.skip(from as int));
    }
    out
}

/// Words joined by single spaces.
pub open spec fn join_words(ws: Seq<Seq<char>>) -> Seq<char>
    decreases ws.len(),
{
    if ws.len() == 0 {
        Seq::empty()
    } else if ws.len() == 1 {
        ws[0]
    } else {
        join_words(ws.drop_last()) + seq![' '] + ws.last()
    }
}

} // verus!
