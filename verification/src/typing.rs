//! Key units: the keys a piece of text takes to type. On the Korean two-set keyboard a
//! precomposed Hangul syllable takes its initial consonant (one key, the doubled ones with
//! shift), its vowel (two keys for a compound vowel such as ㅘ) and its final consonant if
//! any (two keys for a compound final such as ㄳ); every other character is one key, itself.
use crate::model::Language;
use crate::text::chars_of;
use vstd::prelude::*;

verus! {

/// The initial consonants of the Hangul syllables, in Unicode order.
pub open spec fn lead_keys() -> Seq<char> {
    seq!['ㄱ', 'ㄲ', 'ㄴ', 'ㄷ', 'ㄸ', 'ㄹ', 'ㅁ', 'ㅂ', 'ㅃ', 'ㅅ', 'ㅆ', 'ㅇ', 'ㅈ', 'ㅉ', 'ㅊ', 'ㅋ', 'ㅌ', 'ㅍ', 'ㅎ']
}

/// The first key of each vowel of the Hangul syllables, in Unicode order.
pub open spec fn vowel_first_keys() -> Seq<char> {
    seq!['ㅏ', 'ㅐ', 'ㅑ', 'ㅒ', 'ㅓ', 'ㅔ', 'ㅕ', 'ㅖ', 'ㅗ', 'ㅗ', 'ㅗ', 'ㅗ', 'ㅛ', 'ㅜ', 'ㅜ', 'ㅜ', 'ㅜ', 'ㅠ', 'ㅡ', 'ㅡ', 'ㅣ']
}

/// The second key of each compound vowel (`'\0'` for a vowel of one key).
pub open spec fn vowel_second_keys() -> Seq<char> {
    seq!['\0', '\0', '\0', '\0', '\0', '\0', '\0', '\0', '\0', 'ㅏ', 'ㅐ', 'ㅣ', '\0', '\0', 'ㅓ', 'ㅔ', 'ㅣ', '\0', '\0', 'ㅣ', '\0']
}

/// The first key of each final consonant of the Hangul syllables (`'\0'` for none).
pub open spec fn tail_first_keys() -> Seq<char> {
    seq!['\0', 'ㄱ', 'ㄲ', 'ㄱ', 'ㄴ', 'ㄴ', 'ㄴ', 'ㄷ', 'ㄹ', 'ㄹ', 'ㄹ', 'ㄹ', 'ㄹ', 'ㄹ', 'ㄹ', 'ㄹ', 'ㅁ', 'ㅂ', 'ㅂ', 'ㅅ', 'ㅆ', 'ㅇ', 'ㅈ', 'ㅊ', 'ㅋ', 'ㅌ', 'ㅍ', 'ㅎ']
}

/// The second key of each compound final consonant (`'\0'` for a final of one key or none).
pub open spec fn tail_second_keys() -> Seq<char> {
    seq!['\0', '\0', '\0', 'ㅅ', '\0', 'ㅈ', 'ㅎ', '\0', '\0', 'ㄱ', 'ㅁ', 'ㅂ', 'ㅅ', 'ㅌ', 'ㅍ', 'ㅎ', '\0', '\0', 'ㅅ', '\0', '\0', '\0', '\0', '\0', '\0', '\0', '\0', '\0']
}

/// The keys of a jamo given by up to two keys (`'\0'` for none).
pub open spec fn jamo_keys(first: char, second: char) -> Seq<char> {
    if first == '\0' {
        Seq::empty()
    } else if second == '\0' {
        seq![first]
    } else {
        seq![first, second]
    }
}

/// A precomposed Hangul syllable (U+AC00 to U+D7A3).
pub open spec fn is_syllable(c: char) -> bool {
    0xAC00 <= c as u32 <= 0xD7A3
}

/// The key units of one character in a language.
pub open spec fn char_units(language: Language, c: char) -> Seq<char> {
    if language == Language::Ko && is_syllable(c) {
        let i = c as u32 - 0xAC00;
        let v = (i % 588) / 28;
        let t = i % 28;
        seq![lead_keys()[i / 588]] + jamo_keys(vowel_first_keys()[v], vowel_second_keys()[v])
            + jamo_keys(tail_first_keys()[t], tail_second_keys()[t])
    } else {
        seq![c]
    }
}

/// The key units of a text in a language: those of its characters, in order.
pub open spec fn key_units_spec(language: Language, s: Seq<char>) -> Seq<char>
    decreases s.len(),
{
    if s.len() == 0 {
        Seq::empty()
    } else {
        key_units_spec(language, s.drop_last()) + char_units(language, s.last())
    }
}

/// Appends a jamo's keys.
fn push_jamo(out: &mut Vec<char>, first: char, second: char)
    ensures
        final(out)@ == old(out)@ + jamo_keys(first, second),
{
    if first != '\0' {
        out.push(first);
        if second != '\0' {
            out.push(second);
        }
    }
    proof {
        if first == '\0' {
            assert(final(out)@ =~= old(out)@ + jamo_keys(first, second));
        }
    }
}

/// Appends the key units of one character.
fn push_char_units(language: Language, c: char, out: &mut Vec<char>)
    ensures
        final(out)@ == old(out)@ + char_units(language, c),
{
    let code = c as u32;
    if language == Language::Ko && 0xAC00 <= code && code <= 0xD7A3 {
        let leads: [char; 19] = ['ㄱ', 'ㄲ', 'ㄴ', 'ㄷ', 'ㄸ', 'ㄹ', 'ㅁ', 'ㅂ', 'ㅃ', 'ㅅ', 'ㅆ', 'ㅇ', 'ㅈ', 'ㅉ', 'ㅊ', 'ㅋ', 'ㅌ', 'ㅍ', 'ㅎ'];
        let vowel_first: [char; 21] = ['ㅏ', 'ㅐ', 'ㅑ', 'ㅒ', 'ㅓ', 'ㅔ', 'ㅕ', 'ㅖ', 'ㅗ', 'ㅗ', 'ㅗ', 'ㅗ', 'ㅛ', 'ㅜ', 'ㅜ', 'ㅜ', 'ㅜ', 'ㅠ', 'ㅡ', 'ㅡ', 'ㅣ'];
        let vowel_second: [char; 21] = ['\0', '\0', '\0', '\0', '\0', '\0', '\0', '\0', '\0', 'ㅏ', 'ㅐ', 'ㅣ', '\0', '\0', 'ㅓ', 'ㅔ', 'ㅣ', '\0', '\0', 'ㅣ', '\0'];
        let tail_first: [char; 28] = ['\0', 'ㄱ', 'ㄲ', 'ㄱ', 'ㄴ', 'ㄴ', 'ㄴ', 'ㄷ', 'ㄹ', 'ㄹ', 'ㄹ', 'ㄹ', 'ㄹ', 'ㄹ', 'ㄹ', 'ㄹ', 'ㅁ', 'ㅂ', 'ㅂ', 'ㅅ', 'ㅆ', 'ㅇ', 'ㅈ', 'ㅊ', 'ㅋ', 'ㅌ', 'ㅍ', 'ㅎ'];
        let tail_second: [char; 28] = ['\0', '\0', '\0', 'ㅅ', '\0', 'ㅈ', 'ㅎ', '\0', '\0', 'ㄱ', 'ㅁ', 'ㅂ', 'ㅅ', 'ㅌ', 'ㅍ', 'ㅎ', '\0', '\0', 'ㅅ', '\0', '\0', '\0', '\0', '\0', '\0', '\0', '\0', '\0'];
        proof {
            assert(leads@ =~= lead_keys());
            assert(vowel_first@ =~= vowel_first_keys());
            assert(vowel_second@ =~= vowel_second_keys());
            assert(tail_first@ =~= tail_first_keys());
            assert(tail_second@ =~= tail_second_keys());
        }
        let i = code - 0xAC00;
        let l = (i / 588) as usize;
        let v = ((i % 588) / 28) as usize;
        let t = (i % 28) as usize;
        let ghost start = out@;
        out.push(leads[l]);
        push_jamo(out, vowel_first[v], vowel_second[v]);
        push_jamo(out, tail_first[t], tail_second[t]);
        proof {
            assert(out@ =~= start + char_units(language, c));
        }
    } else {
        out.push(c);
        proof {
            assert(final(out)@ =~= old(out)@ + char_units(language, c));
        }
    }
}

/// The key units of a text (a grapheme cluster, a word or a whole text) in a language; see
/// [`key_units_spec`].
pub fn key_units(language: Language, text: &str) -> (r: Vec<char>)
    ensures
        r@ == key_units_spec(language, text@),
{
    let cs = chars_of(text);
    let mut out: Vec<char> = Vec::new();
    let mut i: usize = 0;
    proof {
        assert(cs@.take(0) =~= Seq::<char>::empty());
    }
    while i < cs.len()
        invariant
            cs@ == text@,
            i <= cs.len(),
            out@ == key_units_spec(language, cs@.take(i as int)),
        decreases cs.len() - i,
    {
        proof {
            assert(cs@.take(i + 1).drop_last() =~= cs@.take(i as int));
            assert(cs@.take(i + 1).last() == cs@[i as int]);
        }
        push_char_units(language, cs[i], &mut out);
        i = i + 1;
    }
    proof {
        assert(cs@.take(cs.len() as int) =~= cs@);
    }
    out
}

/// The keys of the vowel at position `v` among the 21 Hangul vowels on the two-set keyboard,
/// one by one: a simple vowel is its own key, and each compound vowel is typed as the two
/// simple vowels it is made of (ㅘ = ㅗ ㅏ, ㅙ = ㅗ ㅐ, ㅚ = ㅗ ㅣ, ㅝ = ㅜ ㅓ, ㅞ = ㅜ ㅔ,
/// ㅟ = ㅜ ㅣ, ㅢ = ㅡ ㅣ).
pub open spec fn two_set_vowel(v: int) -> Seq<char> {
    if v == 0 { seq!['ㅏ'] }
    else if v == 1 { seq!['ㅐ'] }
    else if v == 2 { seq!['ㅑ'] }
    else if v == 3 { seq!['ㅒ'] }
    else if v == 4 { seq!['ㅓ'] }
    else if v == 5 { seq!['ㅔ'] }
    else if v == 6 { seq!['ㅕ'] }
    else if v == 7 { seq!['ㅖ'] }
    else if v == 8 { seq!['ㅗ'] }
    else if v == 9 { seq!['ㅗ', 'ㅏ'] }
    else if v == 10 { seq!['ㅗ', 'ㅐ'] }
    else if v == 11 { seq!['ㅗ', 'ㅣ'] }
    else if v == 12 { seq!['ㅛ'] }
    else if v == 13 { seq!['ㅜ'] }
    else if v == 14 { seq!['ㅜ', 'ㅓ'] }
    else if v == 15 { seq!['ㅜ', 'ㅔ'] }
    else if v == 16 { seq!['ㅜ', 'ㅣ'] }
    else if v == 17 { seq!['ㅠ'] }
    else if v == 18 { seq!['ㅡ'] }
    else if v == 19 { seq!['ㅡ', 'ㅣ'] }
    else { seq!['ㅣ'] }
}

/// The keys of the final consonant at position `t` among the 28 Hangul finals (0 for none)
/// on the two-set keyboard: a simple or doubled final (ㄲ, ㅆ) is one key, and each compound
/// final is typed as the two consonants it is made of (ㄳ = ㄱ ㅅ, ㄵ = ㄴ ㅈ, ㄶ = ㄴ ㅎ,
/// ㄺ = ㄹ ㄱ, ㄻ = ㄹ ㅁ, ㄼ = ㄹ ㅂ, ㄽ = ㄹ ㅅ, ㄾ = ㄹ ㅌ, ㄿ = ㄹ ㅍ, ㅀ = ㄹ ㅎ, ㅄ = ㅂ ㅅ).
pub open spec fn two_set_final(t: int) -> Seq<char> {
    if t == 0 { seq![] }
    else if t == 1 { seq!['ㄱ'] }
    else if t == 2 { seq!['ㄲ'] }
    else if t == 3 { seq!['ㄱ', 'ㅅ'] }
    else if t == 4 { seq!['ㄴ'] }
    else if t == 5 { seq!['ㄴ', 'ㅈ'] }
    else if t == 6 { seq!['ㄴ', 'ㅎ'] }
    else if t == 7 { seq!['ㄷ'] }
    else if t == 8 { seq!['ㄹ'] }
    else if t == 9 { seq!['ㄹ', 'ㄱ'] }
    else if t == 10 { seq!['ㄹ', 'ㅁ'] }
    else if t == 11 { seq!['ㄹ', 'ㅂ'] }
    else if t == 12 { seq!['ㄹ', 'ㅅ'] }
    else if t == 13 { seq!['ㄹ', 'ㅌ'] }
    else if t == 14 { seq!['ㄹ', 'ㅍ'] }
    else if t == 15 { seq!['ㄹ', 'ㅎ'] }
    else if t == 16 { seq!['ㅁ'] }
    else if t == 17 { seq!['ㅂ'] }
    else if t == 18 { seq!['ㅂ', 'ㅅ'] }
    else if t == 19 { seq!['ㅅ'] }
    else if t == 20 { seq!['ㅆ'] }
    else if t == 21 { seq!['ㅇ'] }
    else if t == 22 { seq!['ㅈ'] }
    else if t == 23 { seq!['ㅊ'] }
    else if t == 24 { seq!['ㅋ'] }
    else if t == 25 { seq!['ㅌ'] }
    else if t == 26 { seq!['ㅍ'] }
    else { seq!['ㅎ'] }
}

/// The keys of the initial consonant at position `l` among the 19 Hangul initials: one key
/// each, the doubled ones (ㄲ, ㄸ, ㅃ, ㅆ, ㅉ) with shift.
pub open spec fn two_set_lead(l: int) -> char {
    if l == 0 { 'ㄱ' }
    else if l == 1 { 'ㄲ' }
    else if l == 2 { 'ㄴ' }
    else if l == 3 { 'ㄷ' }
    else if l == 4 { 'ㄸ' }
    else if l == 5 { 'ㄹ' }
    else if l == 6 { 'ㅁ' }
    else if l == 7 { 'ㅂ' }
    else if l == 8 { 'ㅃ' }
    else if l == 9 { 'ㅅ' }
    else if l == 10 { 'ㅆ' }
    else if l == 11 { 'ㅇ' }
    else if l == 12 { 'ㅈ' }
    else if l == 13 { 'ㅉ' }
    else if l == 14 { 'ㅊ' }
    else if l == 15 { 'ㅋ' }
    else if l == 16 { 'ㅌ' }
    else if l == 17 { 'ㅍ' }
    else { 'ㅎ' }
}

proof fn lemma_vowel_keys(v: int)
    requires
        0 <= v < 21,
    ensures
        jamo_keys(vowel_first_keys()[v], vowel_second_keys()[v]) == two_set_vowel(v),
{
    assert(jamo_keys(vowel_first_keys()[v], vowel_second_keys()[v]) =~= two_set_vowel(v));
}

proof fn lemma_final_keys(t: int)
    requires
        0 <= t < 28,
    ensures
        jamo_keys(tail_first_keys()[t], tail_second_keys()[t]) == two_set_final(t),
{
    assert(jamo_keys(tail_first_keys()[t], tail_second_keys()[t]) =~= two_set_final(t));
}

/// In Korean, a precomposed Hangul syllable (initial `l`, vowel `v`, final `t`, at
/// U+AC00 + (21·l + v)·28 + t) takes the key of its initial, then every key of its vowel,
/// then every key of its final: a compound vowel or final is two keys.
pub proof fn lemma_syllable_key_units(c: char)
    requires
        is_syllable(c),
    ensures
        ({
            let i = c as int - 0xAC00;
            key_units_spec(Language::Ko, seq![c]) == seq![two_set_lead(i / 588)] + two_set_vowel((i % 588) / 28)
                + two_set_final(i % 28)
        }),
{
    let i = c as int - 0xAC00;
    let s = seq![c];
    assert(s.drop_last() =~= Seq::<char>::empty());
    assert(key_units_spec(Language::Ko, s.drop_last()) =~= Seq::<char>::empty());
    lemma_vowel_keys((i % 588) / 28);
    lemma_final_keys(i % 28);
    assert(0 <= i / 588 < 19);
    assert(lead_keys()[i / 588] == two_set_lead(i / 588));
    assert(key_units_spec(Language::Ko, s) =~= seq![two_set_lead(i / 588)] + two_set_vowel((i % 588) / 28)
        + two_set_final(i % 28));
}

/// A syllable with a compound vowel and no final takes three keys; one with a compound vowel
/// and a compound final takes five.
pub proof fn lemma_compound_syllable_key_count(c: char)
    requires
        is_syllable(c),
    ensures
        ({
            let i = c as int - 0xAC00;
            let v = (i % 588) / 28;
            let t = i % 28;
            let compound_vowel = v == 9 || v == 10 || v == 11 || v == 14 || v == 15 || v == 16 || v == 19;
            let compound_final = t == 3 || t == 5 || t == 6 || (9 <= t <= 15) || t == 18;
            key_units_spec(Language::Ko, seq![c]).len() == 1 + (if compound_vowel { 2int } else { 1 }) + (if t == 0 {
                0int
            } else if compound_final {
                2
            } else {
                1
            })
        }),
{
    lemma_syllable_key_units(c);
}

/// Outside Korean, and for any character that is not a Hangul syllable, a character is one
/// key, itself.
pub proof fn lemma_other_characters_are_one_key(language: Language, c: char)
    requires
        language != Language::Ko || !is_syllable(c),
    ensures
        key_units_spec(language, seq![c]) == seq![c],
{
    let s = seq![c];
    assert(s.drop_last() =~= Seq::<char>::empty());
    assert(key_units_spec(language, s.drop_last()) =~= Seq::<char>::empty());
    assert(s.last() == c);
    assert(char_units(language, c) == seq![c]);
    assert(key_units_spec(language, s) =~= seq![c]);
}

/// The key units of two texts one after the other are those of the first, then those of
/// the second: a text's keys are its characters' keys, in order.
pub proof fn lemma_key_units_concatenate(language: Language, a: Seq<char>, b: Seq<char>)
    ensures
        key_units_spec(language, a + b) == key_units_spec(language, a) + key_units_spec(language, b),
    decreases b.len(),
{
    if b.len() == 0 {
        assert(a + b =~= a);
        assert(key_units_spec(language, a) + key_units_spec(language, b) =~= key_units_spec(language, a));
    } else {
        lemma_key_units_concatenate(language, a, b.drop_last());
        assert((a + b).drop_last() =~= a + b.drop_last());
        assert((a + b).last() == b.last());
        assert(key_units_spec(language, a + b) =~= key_units_spec(language, a) + key_units_spec(language, b));
    }
}

} // verus!
