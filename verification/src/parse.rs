//! Reading single values from their text form: blank text stands for a missing value.
use vstd::prelude::*;
use vstd::string::StrSliceExecFns;
use vstd::string::StringExecFns;

use crate::value::Value;

verus! {

/// Whether `c` is white space: a character with the Unicode `White_Space` property.
pub open spec fn is_white_space(c: char) -> bool {
    ||| '\u{9}' <= c <= '\u{D}'
    ||| c == ' '
    ||| c == '\u{85}'
    ||| c == '\u{A0}'
    ||| c == '\u{1680}'
    ||| '\u{2000}' <= c <= '\u{200A}'
    ||| c == '\u{2028}'
    ||| c == '\u{2029}'
    ||| c == '\u{202F}'
    ||| c == '\u{205F}'
    ||| c == '\u{3000}'
}

/// Whether the text `s` is blank: empty once white space is trimmed from it.
pub open spec fn is_blank(s: Seq<char>) -> bool {
    forall|i: int| 0 <= i < s.len() ==> is_white_space(#[trigger] s[i])
}

/// A text is blank exactly when each of its characters is white space; a text with a character
/// that is not white space is never blank, and a blank text holds only the white space code
/// points: U+0009 to U+000D, U+0020, U+0085, U+00A0, U+1680, U+2000 to U+200A, U+2028, U+2029,
/// U+202F, U+205F and U+3000.
pub proof fn lemma_blank_exactly_white_space(s: Seq<char>)
    ensures
        is_blank(s) <==> forall|i: int| 0 <= i < s.len() ==> is_white_space(#[trigger] s[i]),
        forall|i: int| 0 <= i < s.len() && !is_white_space(#[trigger] s[i]) ==> !is_blank(s),
        is_blank(s) ==> forall|i: int|
            0 <= i < s.len() ==> {
                let c = #[trigger] s[i] as int;
                ||| 0x9 <= c <= 0xD
                ||| c == 0x20
                ||| c == 0x85
                ||| c == 0xA0
                ||| c == 0x1680
                ||| 0x2000 <= c <= 0x200A
                ||| c == 0x2028
                ||| c == 0x2029
                ||| c == 0x202F
                ||| c == 0x205F
                ||| c == 0x3000
            },
        is_blank(Seq::<char>::empty()),
{
}

/// Blankness of joined texts: `s + t` is blank exactly when both `s` and `t` are.
pub proof fn lemma_blank_concat(s: Seq<char>, t: Seq<char>)
    ensures
        is_blank(s + t) <==> is_blank(s) && is_blank(t),
{
    if is_blank(s + t) {
        assert forall|i: int| 0 <= i < s.len() implies is_white_space(#[trigger] s[i]) by {
            assert((s + t)[i] == s[i]);
        }
        assert forall|i: int| 0 <= i < t.len() implies is_white_space(#[trigger] t[i]) by {
            assert((s + t)[s.len() + i] == t[i]);
        }
    }
    if is_blank(s) && is_blank(t) {
        assert forall|i: int| 0 <= i < (s + t).len() implies is_white_space(#[trigger] (s + t)[i]) by {
            if i < s.len() {
                assert((s + t)[i] == s[i]);
            } else {
                assert((s + t)[i] == t[i - s.len()]);
            }
        }
    }
}

/// Returns whether `c` is white space.
fn white_space(c: char) -> (r: bool)
    ensures
        r == is_white_space(c),
{
    ('\u{9}' <= c && c <= '\u{D}') || c == ' ' || c == '\u{85}' || c == '\u{A0}' || c == '\u{1680}'
        || ('\u{2000}' <= c && c <= '\u{200A}') || c == '\u{2028}' || c == '\u{2029}' || c
        == '\u{202F}' || c == '\u{205F}' || c == '\u{3000}'
}

/// Returns whether the text `s` is blank.
pub fn blank(s: &str) -> (r: bool)
    ensures
        r == is_blank(s@),
{
    let n = s.unicode_len();
    let mut i: usize = 0;
    while i < n
        invariant
            n == s@.len(),
            i <= n,
            forall|k: int| 0 <= k < i ==> is_white_space(#[trigger] s@[k]),
        decreases n - i,
    {
        if !white_space(s.get_char(i)) {
            return false;
        }
        i = i + 1;
    }
    true
}

/// Reads a text value: missing when the text is blank, otherwise the text itself.
pub fn parse_text(s: String) -> (r: Value<String>)
    ensures
        is_blank(s@) ==> r is Na,
        !is_blank(s@) ==> r == Value::Exists(s),
{
    if blank(s.as_str()) {
        Value::Na
    } else {
        Value::Exists(s)
    }
}

/// Reads a boolean value: missing when the text is blank, `true` or `false` for exactly those
/// words, and `None` for any other text.
pub fn parse_boolean(s: String) -> (r: Option<Value<bool>>)
    ensures
        is_blank(s@) ==> r == Some(Value::<bool>::Na),
        !is_blank(s@) && s@ == seq!['t', 'r', 'u', 'e'] ==> r == Some(Value::Exists(true)),
        !is_blank(s@) && s@ == seq!['f', 'a', 'l', 's', 'e'] ==> r == Some(Value::Exists(false)),
        !is_blank(s@) && s@ != seq!['t', 'r', 'u', 'e'] && s@ != seq!['f', 'a', 'l', 's', 'e'] ==> r is None,
{
    if blank(s.as_str()) {
        return Some(Value::Na);
    }
    let t = String::from_str("true");
    let f = String::from_str("false");
    proof {
        reveal_strlit("true");
        reveal_strlit("false");
        assert(t@ =~= seq!['t', 'r', 'u', 'e']);
        assert(f@ =~= seq!['f', 'a', 'l', 's', 'e']);
    }
    if s == t {
        Some(Value::Exists(true))
    } else if s == f {
        Some(Value::Exists(false))
    } else {
        None
    }
}

} // verus!
