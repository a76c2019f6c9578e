//! Text that a Latin-1 font can render.
use vstd::prelude::*;

verus! {

/// What stands for `c` in a font that covers Latin-1 only.
pub open spec fn substitute(c: char) -> Seq<char> {
    if c == 'œ' {
        seq!['o', 'e']
    } else if c == 'Œ' {
        seq!['O', 'E']
    } else if c == '—' || c == '–' || c == '−' {
        seq!['-']
    } else if c == '\u{2018}' || c == '\u{2019}' {
        seq!['\'']
    } else if c == '\u{201C}' || c == '\u{201D}' {
        seq!['"']
    } else if c == '…' {
        seq!['.', '.', '.']
    } else {
        seq![c]
    }
}

/// The text with every character substituted.
pub open spec fn normalized(s: Seq<char>) -> Seq<char>
    decreases s.len(),
{
    if s.len() == 0 {
        seq![]
    } else {
        normalized(s.drop_last()) + substitute(s.last())
    }
}

/// Normalizes text for a font that covers Latin-1 only. The ligature oe and
/// the typographic punctuation above it (dashes, curly quotes, the ellipsis)
/// would be skipped when the text is laid out; here they are spelt with
/// characters that the font has. All other characters stay as they are.
pub fn normalize(input: &str) -> (text: String)
    ensures
        text@ == normalized(input@),
{
    let mut text: String = String::new();
    for c in it: input.chars()
        invariant
            it.seq() == input@,
            text@ == normalized(input@.take(it.index())),
    {
        let ghost before = text@;
        match c {
            'œ' => {
                text.push('o');
                text.push('e');
            },
            'Œ' => {
                text.push('O');
                text.push('E');
            },
            '—' | '–' | '−' => {
                text.push('-');
            },
            '\u{2018}' | '\u{2019}' => {
                text.push('\'');
            },
            '\u{201C}' | '\u{201D}' => {
                text.push('"');
            },
            '…' => {
                text.push('.');
                text.push('.');
                text.push('.');
            },
            other => {
                text.push(other);
            },
        }
        assert(text@ =~= before + substitute(c));
        assert(input@.take(it.index() + 1).drop_last() =~= input@.take(it.index()));
    }
    assert(input@.take(input@.len() as int) =~= input@);
    text
}

/// Text is normalized piece by piece.
pub proof fn law_normalizing_distributes(a: Seq<char>, b: Seq<char>)
    ensures
        normalized(a + b) == normalized(a) + normalized(b),
    decreases b.len(),
{
    if b.len() == 0 {
        assert(a + b =~= a);
        assert(normalized(a) + normalized(b) =~= normalized(a));
    } else {
        law_normalizing_distributes(a, b.drop_last());
        assert((a + b).drop_last() =~= a + b.drop_last());
        assert(normalized(a + b) =~= normalized(a) + normalized(b));
    }
}

/// Whether a character is one that is spelt with others.
pub open spec fn substituted(c: char) -> bool {
    substitute(c) != seq![c]
}

/// Text without any of the substituted characters stays as it is.
pub proof fn law_other_text_is_untouched(s: Seq<char>)
    requires
        forall|i: int| 0 <= i < s.len() ==> !substituted(#[trigger] s[i]),
    ensures
        normalized(s) == s,
    decreases s.len(),
{
    if s.len() > 0 {
        law_other_text_is_untouched(s.drop_last());
        assert(!substituted(s[s.len() - 1]));
        assert(normalized(s) =~= s);
    }
}

/// Text in Latin-1 stays as it is.
pub proof fn law_latin1_is_untouched(s: Seq<char>)
    requires
        forall|i: int| 0 <= i < s.len() ==> (#[trigger] s[i]) as u32 <= 0xff,
    ensures
        normalized(s) == s,
{
    assert forall|i: int| 0 <= i < s.len() implies !substituted(#[trigger] s[i]) by {}
    law_other_text_is_untouched(s);
}

/// Normalized text has none of the substituted characters, and is never
/// shorter.
pub proof fn law_normalized_text_is_renderable(s: Seq<char>)
    ensures
        forall|i: int| 0 <= i < normalized(s).len() ==> !substituted(#[trigger] normalized(s)[i]),
        normalized(s).len() >= s.len(),
    decreases s.len(),
{
    if s.len() > 0 {
        law_normalized_text_is_renderable(s.drop_last());
        let head = normalized(s.drop_last());
        let tail = substitute(s.last());
        assert forall|i: int| 0 <= i < normalized(s).len() implies !substituted(
            #[trigger] normalized(s)[i],
        ) by {
            if i < head.len() {
                assert(normalized(s)[i] == head[i]);
            } else {
                assert(normalized(s)[i] == tail[i - head.len()]);
            }
        }
    }
}

/// Normalizing twice is normalizing once.
pub proof fn law_normalizing_is_idempotent(s: Seq<char>)
    ensures
        normalized(normalized(s)) == normalized(s),
{
    law_normalized_text_is_renderable(s);
    law_other_text_is_untouched(normalized(s));
}

/// What each of the substituted characters becomes, and that no other changes.
pub proof fn law_each_character_has_its_spelling(c: char)
    ensures
        normalized(seq![c]) == if c as u32 == 0x153 {
            seq!['o', 'e']
        } else if c as u32 == 0x152 {
            seq!['O', 'E']
        } else if c as u32 == 0x2014 || c as u32 == 0x2013 || c as u32 == 0x2212 {
            seq!['-']
        } else if c as u32 == 0x2018 || c as u32 == 0x2019 {
            seq!['\'']
        } else if c as u32 == 0x201c || c as u32 == 0x201d {
            seq!['"']
        } else if c as u32 == 0x2026 {
            seq!['.', '.', '.']
        } else {
            seq![c]
        },
{
    assert(seq![c].drop_last() =~= seq![]);
    assert(seq![c].last() == c);
    reveal_with_fuel(normalized, 2);
    assert(normalized(seq![c]) =~= substitute(c));
}

/// One more character adds its own spelling and changes nothing before it.
pub proof fn law_text_is_spelt_character_by_character(s: Seq<char>, c: char)
    ensures
        normalized(s.push(c)) == normalized(s) + normalized(seq![c]),
        normalized(seq![]) == Seq::<char>::empty(),
{
    assert(s.push(c) =~= s + seq![c]);
    law_normalizing_distributes(s, seq![c]);
}

} // verus!
