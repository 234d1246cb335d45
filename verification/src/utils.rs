//! Small helpers on paths and strings.

use vstd::prelude::*;

use vstd::string::StrSliceExecFns;
use vstd::string::StringExecFns;

use crate::backup::hash::hex_digit_char;

verus! {

/// The characters of `s` after its last '/', the whole of `s` when no '/'
/// occurs; a save's display name is the final segment of its source path.
pub open spec fn final_segment(s: Seq<char>) -> Seq<char>
    decreases s.len(),
{
    if s.len() == 0 {
        s
    } else if s.last() == '/' {
        Seq::empty()
    } else {
        final_segment(s.drop_last()).push(s.last())
    }
}

proof fn lemma_final_segment_no_slash(s: Seq<char>)
    requires
        forall|k: int| 0 <= k < s.len() ==> s[k] != '/',
    ensures
        final_segment(s) == s,
    decreases s.len(),
{
    if s.len() == 0 {
        assert(final_segment(s) =~= s);
    } else {
        lemma_final_segment_no_slash(s.drop_last());
        assert(final_segment(s) =~= s);
    }
}

proof fn lemma_final_segment_after_slash(s: Seq<char>, idx: int)
    requires
        0 <= idx < s.len(),
        s[idx] == '/',
        forall|k: int| idx < k < s.len() ==> s[k] != '/',
    ensures
        final_segment(s) == s.subrange(idx + 1, s.len() as int),
    decreases s.len(),
{
    if idx == s.len() - 1 {
        assert(final_segment(s) =~= s.subrange(idx + 1, s.len() as int));
    } else {
        lemma_final_segment_after_slash(s.drop_last(), idx);
        assert(final_segment(s) =~= s.subrange(idx + 1, s.len() as int));
    }
}

/// The final path segment, as `Path::file_name` reads it: the part of the
/// path after its last '/'.
pub fn file_name_of(path: &str) -> (r: String)
    ensures
        r@ == final_segment(path@),
{
    let n = path.unicode_len();
    let mut cut: usize = 0;
    for i in 0..n
        invariant
            n == path@.len(),
            cut == 0 || (1 <= cut <= i && path@[cut - 1] == '/'),
            cut == 0 ==> forall|k: int| 0 <= k < i ==> path@[k] != '/',
            cut >= 1 ==> forall|k: int| cut <= k < i ==> path@[k] != '/',
    {
        if path.get_char(i) == '/' {
            cut = i + 1;
        }
    }
    proof {
        if cut == 0 {
            lemma_final_segment_no_slash(path@);
            assert(path@.subrange(0, n as int) =~= path@);
        } else {
            lemma_final_segment_after_slash(path@, cut - 1);
        }
    }
    let seg = path.substring_char(cut, n);
    seg.to_owned()
}

/// Compose a report of the form "context: detail", as logged beside an
/// error before an operation carries on.
pub fn report_err(msg: &str, err: &str) -> (r: String)
    ensures
        r@ == msg@ + ": "@ + err@,
{
    let mut out = msg.to_owned();
    out.append(": ");
    out.append(err);
    out
}

/// The decimal notation of a number, most significant digit first, without
/// leading zeros.
pub open spec fn dec_str_of(n: int) -> Seq<char>
    decreases n,
{
    if n < 10 {
        seq![hex_digit_char(n as u8)]
    } else {
        dec_str_of(n / 10).push(hex_digit_char((n % 10) as u8))
    }
}

/// Render a wire code in decimal, so a rejection can report the offending
/// value.
pub fn decimal_of_u8(n: u8) -> (r: String)
    ensures
        r@ == dec_str_of(n as int),
{
    let mut out = String::new();
    if n >= 100 {
        out.append(crate::backup::hash::hex_char_str((n / 10) / 10));
    }
    if n >= 10 {
        out.append(crate::backup::hash::hex_char_str((n / 10) % 10));
    }
    out.append(crate::backup::hash::hex_char_str(n % 10));
    proof {
        reveal_with_fuel(dec_str_of, 4);
        if n < 10 {
            assert(out@ =~= dec_str_of(n as int));
        } else if n < 100 {
            assert(n as int / 10 < 10);
            assert(out@ =~= dec_str_of(n as int));
        } else {
            assert(10 <= n as int / 10 < 26);
            assert(dec_str_of(n as int / 10) =~= seq![
                hex_digit_char(((n / 10) / 10) as u8),
                hex_digit_char(((n / 10) % 10) as u8),
            ]);
            assert(out@ =~= dec_str_of(n as int));
        }
    }
    out
}

/// The UTF-8 encoding of a character sequence spends at most four bytes on
/// each character.
pub proof fn lemma_encode_utf8_len(chars: Seq<char>)
    ensures
        vstd::utf8::encode_utf8(chars).len() <= 4 * chars.len(),
    decreases chars.len(),
{
    if chars.len() == 0 {
    } else {
        lemma_encode_utf8_len(chars.drop_first());
        assert(vstd::utf8::encode_scalar(chars[0] as u32).len() <= 4);
    }
}

} // verus!
