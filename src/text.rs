use vstd::prelude::*;
use vstd::utf8::*;

verus! {

/// True of the bytes below 0x80, each of which is a whole character in UTF-8.
pub open spec fn is_ascii_byte(c: u8) -> bool {
    c < 0x80
}

/// The characters spelled by a run of ASCII bytes, one per byte.
pub open spec fn ascii_chars(b: Seq<u8>) -> Seq<char> {
    b.map_values(|c: u8| c as char)
}

/// A run of ASCII bytes is valid UTF-8 and decodes to one character per byte.
pub proof fn lemma_decode_ascii(b: Seq<u8>)
    requires
        forall|k: int| 0 <= k < b.len() ==> is_ascii_byte(#[trigger] b[k]),
    ensures
        valid_utf8(b),
        decode_utf8(b) == ascii_chars(b),
    decreases b.len(),
{
    if b.len() > 0 {
        let c = b[0];
        assert(c & 0x7f == c) by (bit_vector)
            requires
                c < 0x80,
        ;
        let rest = pop_first_scalar(b);
        assert(rest =~= b.drop_first());
        lemma_decode_ascii(rest);
        assert(decode_utf8(b) =~= ascii_chars(b));
    }
}

/// In valid UTF-8, an index is a character boundary where an ASCII byte
/// starts or ends there.
pub proof fn lemma_ascii_boundary(b: Seq<u8>, i: int)
    requires
        valid_utf8(b),
        0 <= i <= b.len(),
        i == 0 || (i < b.len() && is_ascii_byte(b[i])) || (0 < i && is_ascii_byte(b[i - 1])),
    ensures
        is_char_boundary(b, i),
    decreases b.len(),
{
    if i > 0 {
        let n = length_of_first_scalar(b);
        assert(1 <= n <= 4);
        assert(i >= n);
        let rest = pop_first_scalar(b);
        let j = i - n;
        assert(j == 0 || (j < rest.len() && is_ascii_byte(rest[j])) || (0 < j && is_ascii_byte(
            rest[j - 1],
        )));
        lemma_ascii_boundary(rest, j);
    }
}

} // verus!
