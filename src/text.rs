//! Text on the wire: one byte for each character, the character's code.
use vstd::prelude::*;

verus! {

/// The characters that stand for the bytes `b`, one for each.
pub open spec fn chars_of(b: Seq<u8>) -> Seq<char> {
    b.map_values(|x: u8| x as char)
}

/// Every character of `s` has a code below 256, so it fits in one byte.
pub open spec fn is_byte_text(s: Seq<char>) -> bool {
    forall|i: int| 0 <= i < s.len() ==> (#[trigger] s[i] as u32) < 256
}

/// The bytes that carry the characters of `s`, one for each.
pub open spec fn bytes_of(s: Seq<char>) -> Seq<u8> {
    s.map_values(|c: char| c as u32 as u8)
}

/// Relies on `String::push`: the character is appended at the end.
#[verifier::external_body]
fn push_char(s: &mut String, c: char)
    ensures
        final(s)@ == old(s)@.push(c),
{
    s.push(c)
}

/// The text carried by `b[start..end]`.
pub fn text_from_bytes(b: &[u8], start: usize, end: usize) -> (r: String)
    requires
        start <= end <= b@.len(),
    ensures
        r@ == chars_of(b@.subrange(start as int, end as int)),
{
    let mut r = String::new();
    let mut i: usize = start;
    while i < end
        invariant
            start <= i <= end <= b@.len(),
            r@ == chars_of(b@.subrange(start as int, i as int)),
        decreases end - i,
    {
        push_char(&mut r, b[i] as char);
        i = i + 1;
        assert(chars_of(b@.subrange(start as int, i as int)) =~= chars_of(
            b@.subrange(start as int, i as int - 1),
        ).push(b@[i - 1] as char));
    }
    r
}

/// The bytes of `s`, or `None` where a character of `s` does not fit in one byte.
pub fn text_to_bytes(s: &str) -> (r: Option<Vec<u8>>)
    ensures
        r is Some <==> is_byte_text(s@),
        r matches Some(v) ==> v@ == bytes_of(s@),
{
    let mut v: Vec<u8> = Vec::new();
    for c in it: s.chars()
        invariant
            it.seq() == s@,
            v@ == bytes_of(s@.subrange(0, it.index() as int)),
            is_byte_text(s@.subrange(0, it.index() as int)),
    {
        let code = c as u32;
        if code >= 256 {
            return None;
        }
        v.push(code as u8);
        assert(bytes_of(s@.subrange(0, it.index() as int + 1)) =~= v@);
        assert(is_byte_text(s@.subrange(0, it.index() as int + 1)));
    }
    assert(s@.subrange(0, s@.len() as int) =~= s@);
    Some(v)
}

/// Bytes turned into characters and back are the same bytes; byte text
/// turned into bytes and back is the same text.
pub proof fn lemma_text_round_trip(b: Seq<u8>, s: Seq<char>)
    ensures
        is_byte_text(chars_of(b)),
        bytes_of(chars_of(b)) == b,
        is_byte_text(s) ==> chars_of(bytes_of(s)) == s,
{
    assert(bytes_of(chars_of(b)) =~= b);
    if is_byte_text(s) {
        assert forall|i: int| 0 <= i < s.len() implies (s[i] as u32 as u8) as char == s[i] by {
            assert(s[i] as u32 as u8 as u32 == s[i] as u32);
            vstd::utf8::char_u32_cast(s[i], s[i] as u32);
        }
        assert(chars_of(bytes_of(s)) =~= s);
    }
}

} // verus!
