//! Character classes used to bring transcripts to a common reading.

use vstd::prelude::*;

verus! {

/// Punctuation that speech recognition inserts freely and that carries no reading.
pub open spec fn spec_is_separator(c: char) -> bool {
    c == '、' || c == '。' || c == '，' || c == '．' || c == ',' || c == '.' || c == '!'
        || c == '?' || c == '！' || c == '？' || c == '・' || c == '-'
}

/// Whether `c` is one of the separators dropped before matching.
pub fn is_separator(c: char) -> (r: bool)
    ensures
        r == spec_is_separator(c),
{
    c == '、' || c == '。' || c == '，' || c == '．' || c == ',' || c == '.' || c == '!'
        || c == '?' || c == '！' || c == '？' || c == '・' || c == '-'
}

/// The characters with the Unicode `White_Space` property.
pub open spec fn spec_is_white_space(c: char) -> bool {
    let v = c as u32;
    (0x09 <= v && v <= 0x0D) || v == 0x20 || v == 0x85 || v == 0xA0 || v == 0x1680
        || (0x2000 <= v && v <= 0x200A) || v == 0x2028 || v == 0x2029 || v == 0x202F
        || v == 0x205F || v == 0x3000
}

/// Whether `c` is white space (the Unicode `White_Space` property, as `char::is_whitespace`).
pub fn is_white_space(c: char) -> (r: bool)
    ensures
        r == spec_is_white_space(c),
{
    let v = c as u32;
    (0x09 <= v && v <= 0x0D) || v == 0x20 || v == 0x85 || v == 0xA0 || v == 0x1680
        || (0x2000 <= v && v <= 0x200A) || v == 0x2028 || v == 0x2029 || v == 0x202F
        || v == 0x205F || v == 0x3000
}

} // verus!

verus! {

/// The vowel that a katakana character ends in; `None` for characters without
/// one (such as 'ン', 'ッ' or kanji).
pub open spec fn spec_vowel_of(c: char) -> Option<char> {
    match c {
        'ア' | 'ァ' | 'カ' | 'ガ' | 'サ' | 'ザ' | 'タ' | 'ダ' | 'ナ' | 'ハ' | 'バ' | 'パ' | 'マ' | 'ヤ' | 'ャ' | 'ラ' | 'ワ' | 'ヮ' => Some('ア'),
        'イ' | 'ィ' | 'キ' | 'ギ' | 'シ' | 'ジ' | 'チ' | 'ヂ' | 'ニ' | 'ヒ' | 'ビ' | 'ピ' | 'ミ' | 'リ' | 'ヰ' => Some('イ'),
        'ウ' | 'ゥ' | 'ク' | 'グ' | 'ス' | 'ズ' | 'ツ' | 'ヅ' | 'ヌ' | 'フ' | 'ブ' | 'プ' | 'ム' | 'ユ' | 'ュ' | 'ル' | 'ヴ' => Some('ウ'),
        'エ' | 'ェ' | 'ケ' | 'ゲ' | 'セ' | 'ゼ' | 'テ' | 'デ' | 'ネ' | 'ヘ' | 'ベ' | 'ペ' | 'メ' | 'レ' | 'ヱ' => Some('エ'),
        'オ' | 'ォ' | 'コ' | 'ゴ' | 'ソ' | 'ゾ' | 'ト' | 'ド' | 'ノ' | 'ホ' | 'ボ' | 'ポ' | 'モ' | 'ヨ' | 'ョ' | 'ロ' | 'ヲ' => Some('オ'),
        _ => None,
    }
}

/// The vowel that a katakana character ends in, if it has one.
pub fn vowel_of(c: char) -> (r: Option<char>)
    ensures
        r == spec_vowel_of(c),
{
    match c {
        'ア' | 'ァ' | 'カ' | 'ガ' | 'サ' | 'ザ' | 'タ' | 'ダ' | 'ナ' | 'ハ' | 'バ' | 'パ' | 'マ' | 'ヤ' | 'ャ' | 'ラ' | 'ワ' | 'ヮ' => Some('ア'),
        'イ' | 'ィ' | 'キ' | 'ギ' | 'シ' | 'ジ' | 'チ' | 'ヂ' | 'ニ' | 'ヒ' | 'ビ' | 'ピ' | 'ミ' | 'リ' | 'ヰ' => Some('イ'),
        'ウ' | 'ゥ' | 'ク' | 'グ' | 'ス' | 'ズ' | 'ツ' | 'ヅ' | 'ヌ' | 'フ' | 'ブ' | 'プ' | 'ム' | 'ユ' | 'ュ' | 'ル' | 'ヴ' => Some('ウ'),
        'エ' | 'ェ' | 'ケ' | 'ゲ' | 'セ' | 'ゼ' | 'テ' | 'デ' | 'ネ' | 'ヘ' | 'ベ' | 'ペ' | 'メ' | 'レ' | 'ヱ' => Some('エ'),
        'オ' | 'ォ' | 'コ' | 'ゴ' | 'ソ' | 'ゾ' | 'ト' | 'ド' | 'ノ' | 'ホ' | 'ボ' | 'ポ' | 'モ' | 'ヨ' | 'ョ' | 'ロ' | 'ヲ' => Some('オ'),
        _ => None,
    }
}

/// `char::from_u32`: the character whose scalar value is `v`, if `v` is one.
#[verifier::external_body]
fn char_from_u32(v: u32) -> (r: Option<char>)
    ensures
        r is Some <==> (v <= 0xD7FF || (0xE000 <= v && v <= 0x10FFFF)),
        r matches Some(c) ==> c as u32 == v,
{
    char::from_u32(v)
}

/// Whether `c` is a hiragana letter ('ぁ' to 'ゖ').
pub open spec fn spec_is_hiragana(c: char) -> bool {
    0x3041 <= (c as u32) && (c as u32) <= 0x3096
}

/// Hiragana moved to the katakana block; every other character unchanged.
pub open spec fn spec_to_katakana(c: char) -> char {
    if spec_is_hiragana(c) {
        (((c as u32) + 0x60) as u32) as char
    } else {
        c
    }
}

/// Maps hiragana to the corresponding katakana and leaves every other character as it is.
pub fn to_katakana(c: char) -> (r: char)
    ensures
        r == spec_to_katakana(c),
        spec_is_hiragana(c) ==> r as u32 == (c as u32) + 0x60,
{
    let v = c as u32;
    if 0x3041 <= v && v <= 0x3096 {
        match char_from_u32(v + 0x60) {
            Some(k) => {
                proof {
                    vstd::utf8::char_u32_cast(k, (v + 0x60) as u32);
                }
                k
            },
            None => c,
        }
    } else {
        c
    }
}

} // verus!
