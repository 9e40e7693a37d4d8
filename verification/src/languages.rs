//! The languages of the multilingual vocabulary, in the order of their tokens.

use vstd::prelude::*;
use vstd::string::*;

verus! {

/// Token id of the first language token.
pub const LANG_TOKEN_START: u32 = 50259;

/// One past the last language token.
pub const LANG_TOKEN_END: u32 = 50358;

/// The language codes; the token of code number `i` is `LANG_TOKEN_START + i`.
pub open spec fn codes() -> Seq<Seq<char>> {
    seq![
        "en"@, "zh"@, "de"@, "es"@, "ru"@, "ko"@, "fr"@, "ja"@, "pt"@, "tr"@, "pl"@, "ca"@,
        "nl"@, "ar"@, "sv"@, "it"@, "id"@, "hi"@, "fi"@, "vi"@, "he"@, "uk"@, "el"@, "ms"@,
        "cs"@, "ro"@, "da"@, "hu"@, "ta"@, "no"@, "th"@, "ur"@, "hr"@, "bg"@, "lt"@, "la"@,
        "mi"@, "ml"@, "cy"@, "sk"@, "te"@, "fa"@, "lv"@, "bn"@, "sr"@, "az"@, "sl"@, "kn"@,
        "et"@, "mk"@, "br"@, "eu"@, "is"@, "hy"@, "ne"@, "mn"@, "bs"@, "kk"@, "sq"@, "sw"@,
        "gl"@, "mr"@, "pa"@, "si"@, "km"@, "sn"@, "yo"@, "so"@, "af"@, "oc"@, "ka"@, "be"@,
        "tg"@, "sd"@, "gu"@, "am"@, "yi"@, "lo"@, "uz"@, "fo"@, "ht"@, "ps"@, "tk"@, "nn"@,
        "mt"@, "sa"@, "lb"@, "my"@, "bo"@, "tl"@, "mg"@, "as"@, "tt"@, "haw"@, "ln"@, "ha"@,
        "ba"@, "jw"@, "su"@,
    ]
}

/// The first place of `x` in `s`.
pub open spec fn first_place(s: Seq<Seq<char>>, x: Seq<char>) -> Option<int>
    decreases s.len(),
{
    if s.len() == 0 {
        None
    } else {
        match first_place(s.drop_last(), x) {
            Some(i) => Some(i),
            None => if s.last() == x {
                Some(s.len() - 1)
            } else {
                None
            },
        }
    }
}

/// The token of a language: by its place among the codes, English for an unknown code.
pub open spec fn token_of(lang: Seq<char>) -> u32 {
    match first_place(codes(), lang) {
        Some(i) => (LANG_TOKEN_START + i) as u32,
        None => LANG_TOKEN_START,
    }
}

/// The code of a language token. Tokens below the first language and above the last one give
/// English.
pub open spec fn code_of(token: u32) -> Seq<char> {
    if LANG_TOKEN_START <= token < LANG_TOKEN_END {
        codes()[token - LANG_TOKEN_START]
    } else {
        codes()[0]
    }
}

/// The language codes.
fn all_codes() -> (r: [&'static str; 99])
    ensures
        r@.len() == codes().len(),
        forall|i: int| 0 <= i < 99 ==> (#[trigger] r@[i])@ == codes()[i],
{
    [
        "en", "zh", "de", "es", "ru", "ko", "fr", "ja", "pt", "tr", "pl", "ca", "nl", "ar", "sv",
        "it", "id", "hi", "fi", "vi", "he", "uk", "el", "ms", "cs", "ro", "da", "hu", "ta", "no",
        "th", "ur", "hr", "bg", "lt", "la", "mi", "ml", "cy", "sk", "te", "fa", "lv", "bn", "sr",
        "az", "sl", "kn", "et", "mk", "br", "eu", "is", "hy", "ne", "mn", "bs", "kk", "sq", "sw",
        "gl", "mr", "pa", "si", "km", "sn", "yo", "so", "af", "oc", "ka", "be", "tg", "sd", "gu",
        "am", "yi", "lo", "uz", "fo", "ht", "ps", "tk", "nn", "mt", "sa", "lb", "my", "bo", "tl",
        "mg", "as", "tt", "haw", "ln", "ha", "ba", "jw", "su",
    ]
}

/// A place that is found holds what was looked for, and nothing before it does.
pub proof fn lemma_first_place(s: Seq<Seq<char>>, x: Seq<char>)
    ensures
        match first_place(s, x) {
            Some(i) => 0 <= i < s.len() && s[i] == x && forall|j: int| 0 <= j < i ==> s[j] != x,
            None => forall|j: int| 0 <= j < s.len() ==> s[j] != x,
        },
    decreases s.len(),
{
    if s.len() > 0 {
        lemma_first_place(s.drop_last(), x);
        assert forall|j: int| 0 <= j < s.len() - 1 implies s.drop_last()[j] == s[j] by {}
    }
}

/// The first place is where the first match stands.
proof fn lemma_place_found(s: Seq<Seq<char>>, x: Seq<char>, i: int)
    requires
        0 <= i < s.len(),
        s[i] == x,
        forall|j: int| 0 <= j < i ==> s[j] != x,
    ensures
        first_place(s, x) == Some(i),
{
    lemma_first_place(s, x);
}

/// Token of a language code, English if the code is unknown.
pub fn find_token(lang: &str) -> (token: u32)
    ensures
        token == token_of(lang@),
{
    let languages: [&'static str; 99] = all_codes();
    let mut i: usize = 0;
    while i < 99
        invariant
            i <= 99,
            languages@.len() == codes().len() == 99,
            forall|j: int| 0 <= j < 99 ==> (#[trigger] languages@[j])@ == codes()[j],
            forall|j: int| 0 <= j < i ==> codes()[j] != lang@,
        decreases 99 - i,
    {
        if crate::text::same_text(languages[i], lang) {
            proof {
                assert(languages@[i as int]@ == codes()[i as int]);
                lemma_place_found(codes(), lang@, i as int);
            }
            return LANG_TOKEN_START + i as u32;
        }
        assert(languages@[i as int]@ == codes()[i as int]);
        i = i + 1;
    }
    proof {
        lemma_first_place(codes(), lang@);
    }
    LANG_TOKEN_START
}

/// Code of a language token, `"en"` if the token stands for no language.
pub fn language_code_from_token(token: u32) -> (code: String)
    ensures
        code@ == code_of(token),
{
    let languages: [&'static str; 99] = all_codes();
    let index: usize = if token >= LANG_TOKEN_START {
        (token - LANG_TOKEN_START) as usize
    } else {
        0
    };
    if index < 99 {
        assert(languages@[index as int]@ == codes()[index as int]);
        languages[index].to_string()
    } else {
        "en".to_string()
    }
}

/// A known code comes back from its token, and its token is a language token.
pub proof fn law_code_survives(lang: Seq<char>)
    requires
        codes().contains(lang),
    ensures
        LANG_TOKEN_START <= token_of(lang) < LANG_TOKEN_END,
        code_of(token_of(lang)) == lang,
{
    lemma_first_place(codes(), lang);
}

/// The place of a code by its letters.
spec fn spelled(s: Seq<char>) -> int {
    let c = s[0] as int * 0x100 + s[1] as int;
    if s.len() == 3 {
        93
    } else if c == 0x656e {
        0
    } else if c == 0x7a68 {
        1
    } else if c == 0x6465 {
        2
    } else if c == 0x6573 {
        3
    } else if c == 0x7275 {
        4
    } else if c == 0x6b6f {
        5
    } else if c == 0x6672 {
        6
    } else if c == 0x6a61 {
        7
    } else if c == 0x7074 {
        8
    } else if c == 0x7472 {
        9
    } else if c == 0x706c {
        10
    } else if c == 0x6361 {
        11
    } else if c == 0x6e6c {
        12
    } else if c == 0x6172 {
        13
    } else if c == 0x7376 {
        14
    } else if c == 0x6974 {
        15
    } else if c == 0x6964 {
        16
    } else if c == 0x6869 {
        17
    } else if c == 0x6669 {
        18
    } else if c == 0x7669 {
        19
    } else if c == 0x6865 {
        20
    } else if c == 0x756b {
        21
    } else if c == 0x656c {
        22
    } else if c == 0x6d73 {
        23
    } else if c == 0x6373 {
        24
    } else if c == 0x726f {
        25
    } else if c == 0x6461 {
        26
    } else if c == 0x6875 {
        27
    } else if c == 0x7461 {
        28
    } else if c == 0x6e6f {
        29
    } else if c == 0x7468 {
        30
    } else if c == 0x7572 {
        31
    } else if c == 0x6872 {
        32
    } else if c == 0x6267 {
        33
    } else if c == 0x6c74 {
        34
    } else if c == 0x6c61 {
        35
    } else if c == 0x6d69 {
        36
    } else if c == 0x6d6c {
        37
    } else if c == 0x6379 {
        38
    } else if c == 0x736b {
        39
    } else if c == 0x7465 {
        40
    } else if c == 0x6661 {
        41
    } else if c == 0x6c76 {
        42
    } else if c == 0x626e {
        43
    } else if c == 0x7372 {
        44
    } else if c == 0x617a {
        45
    } else if c == 0x736c {
        46
    } else if c == 0x6b6e {
        47
    } else if c == 0x6574 {
        48
    } else if c == 0x6d6b {
        49
    } else if c == 0x6272 {
        50
    } else if c == 0x6575 {
        51
    } else if c == 0x6973 {
        52
    } else if c == 0x6879 {
        53
    } else if c == 0x6e65 {
        54
    } else if c == 0x6d6e {
        55
    } else if c == 0x6273 {
        56
    } else if c == 0x6b6b {
        57
    } else if c == 0x7371 {
        58
    } else if c == 0x7377 {
        59
    } else if c == 0x676c {
        60
    } else if c == 0x6d72 {
        61
    } else if c == 0x7061 {
        62
    } else if c == 0x7369 {
        63
    } else if c == 0x6b6d {
        64
    } else if c == 0x736e {
        65
    } else if c == 0x796f {
        66
    } else if c == 0x736f {
        67
    } else if c == 0x6166 {
        68
    } else if c == 0x6f63 {
        69
    } else if c == 0x6b61 {
        70
    } else if c == 0x6265 {
        71
    } else if c == 0x7467 {
        72
    } else if c == 0x7364 {
        73
    } else if c == 0x6775 {
        74
    } else if c == 0x616d {
        75
    } else if c == 0x7969 {
        76
    } else if c == 0x6c6f {
        77
    } else if c == 0x757a {
        78
    } else if c == 0x666f {
        79
    } else if c == 0x6874 {
        80
    } else if c == 0x7073 {
        81
    } else if c == 0x746b {
        82
    } else if c == 0x6e6e {
        83
    } else if c == 0x6d74 {
        84
    } else if c == 0x7361 {
        85
    } else if c == 0x6c62 {
        86
    } else if c == 0x6d79 {
        87
    } else if c == 0x626f {
        88
    } else if c == 0x746c {
        89
    } else if c == 0x6d67 {
        90
    } else if c == 0x6173 {
        91
    } else if c == 0x7474 {
        92
    } else if c == 0x6c6e {
        94
    } else if c == 0x6861 {
        95
    } else if c == 0x6261 {
        96
    } else if c == 0x6a77 {
        97
    } else if c == 0x7375 {
        98
    } else {
        99
    }
}

/// Every code is spelled differently.
#[verifier::rlimit(100)]
proof fn lemma_spelled(i: int)
    requires
        0 <= i < 99,
    ensures
        spelled(codes()[i]) == i,
{
    reveal_strlit("en");
    reveal_strlit("zh");
    reveal_strlit("de");
    reveal_strlit("es");
    reveal_strlit("ru");
    reveal_strlit("ko");
    reveal_strlit("fr");
    reveal_strlit("ja");
    reveal_strlit("pt");
    reveal_strlit("tr");
    reveal_strlit("pl");
    reveal_strlit("ca");
    reveal_strlit("nl");
    reveal_strlit("ar");
    reveal_strlit("sv");
    reveal_strlit("it");
    reveal_strlit("id");
    reveal_strlit("hi");
    reveal_strlit("fi");
    reveal_strlit("vi");
    reveal_strlit("he");
    reveal_strlit("uk");
    reveal_strlit("el");
    reveal_strlit("ms");
    reveal_strlit("cs");
    reveal_strlit("ro");
    reveal_strlit("da");
    reveal_strlit("hu");
    reveal_strlit("ta");
    reveal_strlit("no");
    reveal_strlit("th");
    reveal_strlit("ur");
    reveal_strlit("hr");
    reveal_strlit("bg");
    reveal_strlit("lt");
    reveal_strlit("la");
    reveal_strlit("mi");
    reveal_strlit("ml");
    reveal_strlit("cy");
    reveal_strlit("sk");
    reveal_strlit("te");
    reveal_strlit("fa");
    reveal_strlit("lv");
    reveal_strlit("bn");
    reveal_strlit("sr");
    reveal_strlit("az");
    reveal_strlit("sl");
    reveal_strlit("kn");
    reveal_strlit("et");
    reveal_strlit("mk");
    reveal_strlit("br");
    reveal_strlit("eu");
    reveal_strlit("is");
    reveal_strlit("hy");
    reveal_strlit("ne");
    reveal_strlit("mn");
    reveal_strlit("bs");
    reveal_strlit("kk");
    reveal_strlit("sq");
    reveal_strlit("sw");
    reveal_strlit("gl");
    reveal_strlit("mr");
    reveal_strlit("pa");
    reveal_strlit("si");
    reveal_strlit("km");
    reveal_strlit("sn");
    reveal_strlit("yo");
    reveal_strlit("so");
    reveal_strlit("af");
    reveal_strlit("oc");
    reveal_strlit("ka");
    reveal_strlit("be");
    reveal_strlit("tg");
    reveal_strlit("sd");
    reveal_strlit("gu");
    reveal_strlit("am");
    reveal_strlit("yi");
    reveal_strlit("lo");
    reveal_strlit("uz");
    reveal_strlit("fo");
    reveal_strlit("ht");
    reveal_strlit("ps");
    reveal_strlit("tk");
    reveal_strlit("nn");
    reveal_strlit("mt");
    reveal_strlit("sa");
    reveal_strlit("lb");
    reveal_strlit("my");
    reveal_strlit("bo");
    reveal_strlit("tl");
    reveal_strlit("mg");
    reveal_strlit("as");
    reveal_strlit("tt");
    reveal_strlit("haw");
    reveal_strlit("ln");
    reveal_strlit("ha");
    reveal_strlit("ba");
    reveal_strlit("jw");
    reveal_strlit("su");
}

/// A language token comes back from its code.
pub proof fn law_token_survives(token: u32)
    requires
        LANG_TOKEN_START <= token < LANG_TOKEN_END,
    ensures
        token_of(code_of(token)) == token,
{
    let i = token - LANG_TOKEN_START;
    lemma_first_place(codes(), codes()[i]);
    let found = first_place(codes(), codes()[i])->0;
    lemma_spelled(i);
    lemma_spelled(found);
}

/// There are 99 languages with tokens from 50259 on. A code that is none of theirs has the token of
/// English, and a token that is none of theirs has the code of English.
pub proof fn law_unknown_languages_are_english(lang: Seq<char>, token: u32)
    ensures
        codes().len() == 99,
        LANG_TOKEN_START == 50259,
        codes()[0] == "en"@,
        token_of("en"@) == 50259,
        !codes().contains(lang) ==> token_of(lang) == token_of("en"@),
        token < 50259 || token >= 50259 + 99 ==> code_of(token) == "en"@,
{
    lemma_first_place(codes(), lang);
    lemma_first_place(codes(), "en"@);
    assert(codes()[0] == "en"@);
    if !codes().contains(lang) {
        if let Some(i) = first_place(codes(), lang) {
            assert(codes()[i] == lang);
        }
    }
}

} // verus!
