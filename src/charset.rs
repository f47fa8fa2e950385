use vstd::prelude::*;

verus! {

/// A code point of the CJK Unified Ideographs block or of its extensions A and B.
pub open spec fn is_chinese(c: char) -> bool {
    let v = c as u32;
    (0x4E00 <= v <= 0x9FFF) || (0x3400 <= v <= 0x4DBF) || (0x20000 <= v <= 0x2A6DF)
}

/// Whether some character of `text` is a Chinese ideograph.
pub fn contains_chinese_characters(text: &str) -> (r: bool)
    ensures
        r == exists|i: int| 0 <= i < text@.len() && is_chinese(#[trigger] text@[i]),
{
    let n = text.unicode_len();
    let mut i: usize = 0;
    while i < n
        invariant
            n == text@.len(),
            i <= n,
            forall|j: int| 0 <= j < i ==> !is_chinese(#[trigger] text@[j]),
        decreases n - i,
    {
        let v = text.get_char(i) as u32;
        if (0x4E00 <= v && v <= 0x9FFF) || (0x3400 <= v && v <= 0x4DBF) || (0x20000 <= v && v
            <= 0x2A6DF) {
            return true;
        }
        i = i + 1;
    }
    false
}

} // verus!
