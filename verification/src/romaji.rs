//! Romaji to hiragana conversion, one typed character at a time.
use vstd::prelude::*;

use crate::text::{chars_of, push_char, push_chars, string_from_chars};

verus! {

fn kana1(a: char) -> (v: Vec<char>)
    ensures
        v@ == seq![a],
{
    let mut v = Vec::new();
    v.push(a);
    v
}

fn kana2(a: char, b: char) -> (v: Vec<char>)
    ensures
        v@ == seq![a, b],
{
    let mut v = Vec::new();
    v.push(a);
    v.push(b);
    v
}

/// Kana for the 1-character key, if it is one.
pub open spec fn rule1(c0: char) -> Option<Seq<char>> {
    match c0 {
        ',' => Some(seq!['、']),
        '-' => Some(seq!['ー']),
        '.' => Some(seq!['。']),
        '[' => Some(seq!['「']),
        ']' => Some(seq!['」']),
        'a' => Some(seq!['あ']),
        'e' => Some(seq!['え']),
        'i' => Some(seq!['い']),
        'o' => Some(seq!['お']),
        'u' => Some(seq!['う']),
        _ => None,
    }
}

/// Kana for the 2-character key, if it is one.
pub open spec fn rule2(c0: char, c1: char) -> Option<Seq<char>> {
    match c0 {
        'b' => {
            match c1 {
                'a' => Some(seq!['ば']),
                'e' => Some(seq!['べ']),
                'i' => Some(seq!['び']),
                'o' => Some(seq!['ぼ']),
                'u' => Some(seq!['ぶ']),
                _ => None,
            }
        },
        'd' => {
            match c1 {
                'a' => Some(seq!['だ']),
                'e' => Some(seq!['で']),
                'i' => Some(seq!['ぢ']),
                'o' => Some(seq!['ど']),
                'u' => Some(seq!['づ']),
                _ => None,
            }
        },
        'f' => {
            match c1 {
                'a' => Some(seq!['ふ', 'ぁ']),
                'e' => Some(seq!['ふ', 'ぇ']),
                'i' => Some(seq!['ふ', 'ぃ']),
                'o' => Some(seq!['ふ', 'ぉ']),
                'u' => Some(seq!['ふ']),
                _ => None,
            }
        },
        'g' => {
            match c1 {
                'a' => Some(seq!['が']),
                'e' => Some(seq!['げ']),
                'i' => Some(seq!['ぎ']),
                'o' => Some(seq!['ご']),
                'u' => Some(seq!['ぐ']),
                _ => None,
            }
        },
        'h' => {
            match c1 {
                'a' => Some(seq!['は']),
                'e' => Some(seq!['へ']),
                'i' => Some(seq!['ひ']),
                'o' => Some(seq!['ほ']),
                'u' => Some(seq!['ふ']),
                _ => None,
            }
        },
        'j' => {
            match c1 {
                'a' => Some(seq!['じ', 'ゃ']),
                'e' => Some(seq!['じ', 'ぇ']),
                'i' => Some(seq!['じ']),
                'o' => Some(seq!['じ', 'ょ']),
                'u' => Some(seq!['じ', 'ゅ']),
                _ => None,
            }
        },
        'k' => {
            match c1 {
                'a' => Some(seq!['か']),
                'e' => Some(seq!['け']),
                'i' => Some(seq!['き']),
                'o' => Some(seq!['こ']),
                'u' => Some(seq!['く']),
                _ => None,
            }
        },
        'l' => {
            match c1 {
                'a' => Some(seq!['ぁ']),
                'e' => Some(seq!['ぇ']),
                'i' => Some(seq!['ぃ']),
                'o' => Some(seq!['ぉ']),
                'u' => Some(seq!['ぅ']),
                _ => None,
            }
        },
        'm' => {
            match c1 {
                'a' => Some(seq!['ま']),
                'e' => Some(seq!['め']),
                'i' => Some(seq!['み']),
                'o' => Some(seq!['も']),
                'u' => Some(seq!['む']),
                _ => None,
            }
        },
        'n' => {
            match c1 {
                '\'' => Some(seq!['ん']),
                'a' => Some(seq!['な']),
                'e' => Some(seq!['ね']),
                'i' => Some(seq!['に']),
                'n' => Some(seq!['ん']),
                'o' => Some(seq!['の']),
                'u' => Some(seq!['ぬ']),
                _ => None,
            }
        },
        'p' => {
            match c1 {
                'a' => Some(seq!['ぱ']),
                'e' => Some(seq!['ぺ']),
                'i' => Some(seq!['ぴ']),
                'o' => Some(seq!['ぽ']),
                'u' => Some(seq!['ぷ']),
                _ => None,
            }
        },
        'r' => {
            match c1 {
                'a' => Some(seq!['ら']),
                'e' => Some(seq!['れ']),
                'i' => Some(seq!['り']),
                'o' => Some(seq!['ろ']),
                'u' => Some(seq!['る']),
                _ => None,
            }
        },
        's' => {
            match c1 {
                'a' => Some(seq!['さ']),
                'e' => Some(seq!['せ']),
                'i' => Some(seq!['し']),
                'o' => Some(seq!['そ']),
                'u' => Some(seq!['す']),
                _ => None,
            }
        },
        't' => {
            match c1 {
                'a' => Some(seq!['た']),
                'e' => Some(seq!['て']),
                'i' => Some(seq!['ち']),
                'o' => Some(seq!['と']),
                'u' => Some(seq!['つ']),
                _ => None,
            }
        },
        'v' => {
            match c1 {
                'a' => Some(seq!['ゔ', 'ぁ']),
                'e' => Some(seq!['ゔ', 'ぇ']),
                'i' => Some(seq!['ゔ', 'ぃ']),
                'o' => Some(seq!['ゔ', 'ぉ']),
                'u' => Some(seq!['ゔ']),
                _ => None,
            }
        },
        'w' => {
            match c1 {
                'a' => Some(seq!['わ']),
                'e' => Some(seq!['う', 'ぇ']),
                'i' => Some(seq!['う', 'ぃ']),
                'o' => Some(seq!['を']),
                'u' => Some(seq!['う']),
                _ => None,
            }
        },
        'x' => {
            match c1 {
                'a' => Some(seq!['ぁ']),
                'e' => Some(seq!['ぇ']),
                'i' => Some(seq!['ぃ']),
                'n' => Some(seq!['ん']),
                'o' => Some(seq!['ぉ']),
                'u' => Some(seq!['ぅ']),
                _ => None,
            }
        },
        'y' => {
            match c1 {
                'a' => Some(seq!['や']),
                'e' => Some(seq!['い', 'ぇ']),
                'i' => Some(seq!['い']),
                'o' => Some(seq!['よ']),
                'u' => Some(seq!['ゆ']),
                _ => None,
            }
        },
        'z' => {
            match c1 {
                'a' => Some(seq!['ざ']),
                'e' => Some(seq!['ぜ']),
                'i' => Some(seq!['じ']),
                'o' => Some(seq!['ぞ']),
                'u' => Some(seq!['ず']),
                _ => None,
            }
        },
        _ => None,
    }
}

/// Kana for the 3-character key, if it is one.
pub open spec fn rule3(c0: char, c1: char, c2: char) -> Option<Seq<char>> {
    match c0 {
        'b' => {
            match c1 {
                'y' => {
                    match c2 {
                        'a' => Some(seq!['び', 'ゃ']),
                        'e' => Some(seq!['び', 'ぇ']),
                        'i' => Some(seq!['び', 'ぃ']),
                        'o' => Some(seq!['び', 'ょ']),
                        'u' => Some(seq!['び', 'ゅ']),
                        _ => None,
                    }
                },
                _ => None,
            }
        },
        'c' => {
            match c1 {
                'h' => {
                    match c2 {
                        'a' => Some(seq!['ち', 'ゃ']),
                        'e' => Some(seq!['ち', 'ぇ']),
                        'i' => Some(seq!['ち']),
                        'o' => Some(seq!['ち', 'ょ']),
                        'u' => Some(seq!['ち', 'ゅ']),
                        _ => None,
                    }
                },
                _ => None,
            }
        },
        'd' => {
            match c1 {
                'h' => {
                    match c2 {
                        'a' => Some(seq!['で', 'ゃ']),
                        'e' => Some(seq!['で', 'ぇ']),
                        'i' => Some(seq!['で', 'ぃ']),
                        'o' => Some(seq!['で', 'ょ']),
                        'u' => Some(seq!['で', 'ゅ']),
                        _ => None,
                    }
                },
                'y' => {
                    match c2 {
                        'a' => Some(seq!['ぢ', 'ゃ']),
                        'e' => Some(seq!['ぢ', 'ぇ']),
                        'i' => Some(seq!['ぢ', 'ぃ']),
                        'o' => Some(seq!['ぢ', 'ょ']),
                        'u' => Some(seq!['ぢ', 'ゅ']),
                        _ => None,
                    }
                },
                _ => None,
            }
        },
        'g' => {
            match c1 {
                'y' => {
                    match c2 {
                        'a' => Some(seq!['ぎ', 'ゃ']),
                        'e' => Some(seq!['ぎ', 'ぇ']),
                        'i' => Some(seq!['ぎ', 'ぃ']),
                        'o' => Some(seq!['ぎ', 'ょ']),
                        'u' => Some(seq!['ぎ', 'ゅ']),
                        _ => None,
                    }
                },
                _ => None,
            }
        },
        'h' => {
            match c1 {
                'y' => {
                    match c2 {
                        'a' => Some(seq!['ひ', 'ゃ']),
                        'e' => Some(seq!['ひ', 'ぇ']),
                        'i' => Some(seq!['ひ', 'ぃ']),
                        'o' => Some(seq!['ひ', 'ょ']),
                        'u' => Some(seq!['ひ', 'ゅ']),
                        _ => None,
                    }
                },
                _ => None,
            }
        },
        'j' => {
            match c1 {
                'y' => {
                    match c2 {
                        'a' => Some(seq!['じ', 'ゃ']),
                        'e' => Some(seq!['じ', 'ぇ']),
                        'i' => Some(seq!['じ', 'ぃ']),
                        'o' => Some(seq!['じ', 'ょ']),
                        'u' => Some(seq!['じ', 'ゅ']),
                        _ => None,
                    }
                },
                _ => None,
            }
        },
        'k' => {
            match c1 {
                'y' => {
                    match c2 {
                        'a' => Some(seq!['き', 'ゃ']),
                        'e' => Some(seq!['き', 'ぇ']),
                        'i' => Some(seq!['き', 'ぃ']),
                        'o' => Some(seq!['き', 'ょ']),
                        'u' => Some(seq!['き', 'ゅ']),
                        _ => None,
                    }
                },
                _ => None,
            }
        },
        'l' => {
            match c1 {
                't' => {
                    match c2 {
                        'u' => Some(seq!['っ']),
                        _ => None,
                    }
                },
                'w' => {
                    match c2 {
                        'a' => Some(seq!['ゎ']),
                        _ => None,
                    }
                },
                'y' => {
                    match c2 {
                        'a' => Some(seq!['ゃ']),
                        'o' => Some(seq!['ょ']),
                        'u' => Some(seq!['ゅ']),
                        _ => None,
                    }
                },
                _ => None,
            }
        },
        'm' => {
            match c1 {
                'y' => {
                    match c2 {
                        'a' => Some(seq!['み', 'ゃ']),
                        'e' => Some(seq!['み', 'ぇ']),
                        'i' => Some(seq!['み', 'ぃ']),
                        'o' => Some(seq!['み', 'ょ']),
                        'u' => Some(seq!['み', 'ゅ']),
                        _ => None,
                    }
                },
                _ => None,
            }
        },
        'n' => {
            match c1 {
                'y' => {
                    match c2 {
                        'a' => Some(seq!['に', 'ゃ']),
                        'e' => Some(seq!['に', 'ぇ']),
                        'i' => Some(seq!['に', 'ぃ']),
                        'o' => Some(seq!['に', 'ょ']),
                        'u' => Some(seq!['に', 'ゅ']),
                        _ => None,
                    }
                },
                _ => None,
            }
        },
        'p' => {
            match c1 {
                'y' => {
                    match c2 {
                        'a' => Some(seq!['ぴ', 'ゃ']),
                        'e' => Some(seq!['ぴ', 'ぇ']),
                        'i' => Some(seq!['ぴ', 'ぃ']),
                        'o' => Some(seq!['ぴ', 'ょ']),
                        'u' => Some(seq!['ぴ', 'ゅ']),
                        _ => None,
                    }
                },
                _ => None,
            }
        },
        'r' => {
            match c1 {
                'y' => {
                    match c2 {
                        'a' => Some(seq!['り', 'ゃ']),
                        'e' => Some(seq!['り', 'ぇ']),
                        'i' => Some(seq!['り', 'ぃ']),
                        'o' => Some(seq!['り', 'ょ']),
                        'u' => Some(seq!['り', 'ゅ']),
                        _ => None,
                    }
                },
                _ => None,
            }
        },
        's' => {
            match c1 {
                'h' => {
                    match c2 {
                        'a' => Some(seq!['し', 'ゃ']),
                        'e' => Some(seq!['し', 'ぇ']),
                        'i' => Some(seq!['し']),
                        'o' => Some(seq!['し', 'ょ']),
                        'u' => Some(seq!['し', 'ゅ']),
                        _ => None,
                    }
                },
                'y' => {
                    match c2 {
                        'a' => Some(seq!['し', 'ゃ']),
                        'e' => Some(seq!['し', 'ぇ']),
                        'i' => Some(seq!['し', 'ぃ']),
                        'o' => Some(seq!['し', 'ょ']),
                        'u' => Some(seq!['し', 'ゅ']),
                        _ => None,
                    }
                },
                _ => None,
            }
        },
        't' => {
            match c1 {
                'h' => {
                    match c2 {
                        'a' => Some(seq!['て', 'ゃ']),
                        'e' => Some(seq!['て', 'ぇ']),
                        'i' => Some(seq!['て', 'ぃ']),
                        'o' => Some(seq!['て', 'ょ']),
                        'u' => Some(seq!['て', 'ゅ']),
                        _ => None,
                    }
                },
                's' => {
                    match c2 {
                        'a' => Some(seq!['つ', 'ぁ']),
                        'e' => Some(seq!['つ', 'ぇ']),
                        'i' => Some(seq!['つ', 'ぃ']),
                        'o' => Some(seq!['つ', 'ぉ']),
                        'u' => Some(seq!['つ']),
                        _ => None,
                    }
                },
                'y' => {
                    match c2 {
                        'a' => Some(seq!['ち', 'ゃ']),
                        'e' => Some(seq!['ち', 'ぇ']),
                        'i' => Some(seq!['ち', 'ぃ']),
                        'o' => Some(seq!['ち', 'ょ']),
                        'u' => Some(seq!['ち', 'ゅ']),
                        _ => None,
                    }
                },
                _ => None,
            }
        },
        'x' => {
            match c1 {
                't' => {
                    match c2 {
                        'u' => Some(seq!['っ']),
                        _ => None,
                    }
                },
                'w' => {
                    match c2 {
                        'a' => Some(seq!['ゎ']),
                        _ => None,
                    }
                },
                'y' => {
                    match c2 {
                        'a' => Some(seq!['ゃ']),
                        'o' => Some(seq!['ょ']),
                        'u' => Some(seq!['ゅ']),
                        _ => None,
                    }
                },
                _ => None,
            }
        },
        'z' => {
            match c1 {
                'y' => {
                    match c2 {
                        'a' => Some(seq!['じ', 'ゃ']),
                        'e' => Some(seq!['じ', 'ぇ']),
                        'i' => Some(seq!['じ', 'ぃ']),
                        'o' => Some(seq!['じ', 'ょ']),
                        'u' => Some(seq!['じ', 'ゅ']),
                        _ => None,
                    }
                },
                _ => None,
            }
        },
        _ => None,
    }
}

/// Kana for the 4-character key, if it is one.
pub open spec fn rule4(c0: char, c1: char, c2: char, c3: char) -> Option<Seq<char>> {
    match c0 {
        'l' => {
            match c1 {
                't' => {
                    match c2 {
                        's' => {
                            match c3 {
                                'u' => Some(seq!['っ']),
                                _ => None,
                            }
                        },
                        _ => None,
                    }
                },
                _ => None,
            }
        },
        'x' => {
            match c1 {
                't' => {
                    match c2 {
                        's' => {
                            match c3 {
                                'u' => Some(seq!['っ']),
                                _ => None,
                            }
                        },
                        _ => None,
                    }
                },
                _ => None,
            }
        },
        _ => None,
    }
}

fn rule1_exec(c0: char) -> (r: Option<Vec<char>>)
    ensures
        match r { Some(v) => rule1(c0) == Some(v@), None => rule1(c0) is None },
{
    match c0 {
        ',' => Some(kana1('、')),
        '-' => Some(kana1('ー')),
        '.' => Some(kana1('。')),
        '[' => Some(kana1('「')),
        ']' => Some(kana1('」')),
        'a' => Some(kana1('あ')),
        'e' => Some(kana1('え')),
        'i' => Some(kana1('い')),
        'o' => Some(kana1('お')),
        'u' => Some(kana1('う')),
        _ => None,
    }
}

fn rule2_exec(c0: char, c1: char) -> (r: Option<Vec<char>>)
    ensures
        match r { Some(v) => rule2(c0, c1) == Some(v@), None => rule2(c0, c1) is None },
{
    match c0 {
        'b' => {
            match c1 {
                'a' => Some(kana1('ば')),
                'e' => Some(kana1('べ')),
                'i' => Some(kana1('び')),
                'o' => Some(kana1('ぼ')),
                'u' => Some(kana1('ぶ')),
                _ => None,
            }
        },
        'd' => {
            match c1 {
                'a' => Some(kana1('だ')),
                'e' => Some(kana1('で')),
                'i' => Some(kana1('ぢ')),
                'o' => Some(kana1('ど')),
                'u' => Some(kana1('づ')),
                _ => None,
            }
        },
        'f' => {
            match c1 {
                'a' => Some(kana2('ふ', 'ぁ')),
                'e' => Some(kana2('ふ', 'ぇ')),
                'i' => Some(kana2('ふ', 'ぃ')),
                'o' => Some(kana2('ふ', 'ぉ')),
                'u' => Some(kana1('ふ')),
                _ => None,
            }
        },
        'g' => {
            match c1 {
                'a' => Some(kana1('が')),
                'e' => Some(kana1('げ')),
                'i' => Some(kana1('ぎ')),
                'o' => Some(kana1('ご')),
                'u' => Some(kana1('ぐ')),
                _ => None,
            }
        },
        'h' => {
            match c1 {
                'a' => Some(kana1('は')),
                'e' => Some(kana1('へ')),
                'i' => Some(kana1('ひ')),
                'o' => Some(kana1('ほ')),
                'u' => Some(kana1('ふ')),
                _ => None,
            }
        },
        'j' => {
            match c1 {
                'a' => Some(kana2('じ', 'ゃ')),
                'e' => Some(kana2('じ', 'ぇ')),
                'i' => Some(kana1('じ')),
                'o' => Some(kana2('じ', 'ょ')),
                'u' => Some(kana2('じ', 'ゅ')),
                _ => None,
            }
        },
        'k' => {
            match c1 {
                'a' => Some(kana1('か')),
                'e' => Some(kana1('け')),
                'i' => Some(kana1('き')),
                'o' => Some(kana1('こ')),
                'u' => Some(kana1('く')),
                _ => None,
            }
        },
        'l' => {
            match c1 {
                'a' => Some(kana1('ぁ')),
                'e' => Some(kana1('ぇ')),
                'i' => Some(kana1('ぃ')),
                'o' => Some(kana1('ぉ')),
                'u' => Some(kana1('ぅ')),
                _ => None,
            }
        },
        'm' => {
            match c1 {
                'a' => Some(kana1('ま')),
                'e' => Some(kana1('め')),
                'i' => Some(kana1('み')),
                'o' => Some(kana1('も')),
                'u' => Some(kana1('む')),
                _ => None,
            }
        },
        'n' => {
            match c1 {
                '\'' => Some(kana1('ん')),
                'a' => Some(kana1('な')),
                'e' => Some(kana1('ね')),
                'i' => Some(kana1('に')),
                'n' => Some(kana1('ん')),
                'o' => Some(kana1('の')),
                'u' => Some(kana1('ぬ')),
                _ => None,
            }
        },
        'p' => {
            match c1 {
                'a' => Some(kana1('ぱ')),
                'e' => Some(kana1('ぺ')),
                'i' => Some(kana1('ぴ')),
                'o' => Some(kana1('ぽ')),
                'u' => Some(kana1('ぷ')),
                _ => None,
            }
        },
        'r' => {
            match c1 {
                'a' => Some(kana1('ら')),
                'e' => Some(kana1('れ')),
                'i' => Some(kana1('り')),
                'o' => Some(kana1('ろ')),
                'u' => Some(kana1('る')),
                _ => None,
            }
        },
        's' => {
            match c1 {
                'a' => Some(kana1('さ')),
                'e' => Some(kana1('せ')),
                'i' => Some(kana1('し')),
                'o' => Some(kana1('そ')),
                'u' => Some(kana1('す')),
                _ => None,
            }
        },
        't' => {
            match c1 {
                'a' => Some(kana1('た')),
                'e' => Some(kana1('て')),
                'i' => Some(kana1('ち')),
                'o' => Some(kana1('と')),
                'u' => Some(kana1('つ')),
                _ => None,
            }
        },
        'v' => {
            match c1 {
                'a' => Some(kana2('ゔ', 'ぁ')),
                'e' => Some(kana2('ゔ', 'ぇ')),
                'i' => Some(kana2('ゔ', 'ぃ')),
                'o' => Some(kana2('ゔ', 'ぉ')),
                'u' => Some(kana1('ゔ')),
                _ => None,
            }
        },
        'w' => {
            match c1 {
                'a' => Some(kana1('わ')),
                'e' => Some(kana2('う', 'ぇ')),
                'i' => Some(kana2('う', 'ぃ')),
                'o' => Some(kana1('を')),
                'u' => Some(kana1('う')),
                _ => None,
            }
        },
        'x' => {
            match c1 {
                'a' => Some(kana1('ぁ')),
                'e' => Some(kana1('ぇ')),
                'i' => Some(kana1('ぃ')),
                'n' => Some(kana1('ん')),
                'o' => Some(kana1('ぉ')),
                'u' => Some(kana1('ぅ')),
                _ => None,
            }
        },
        'y' => {
            match c1 {
                'a' => Some(kana1('や')),
                'e' => Some(kana2('い', 'ぇ')),
                'i' => Some(kana1('い')),
                'o' => Some(kana1('よ')),
                'u' => Some(kana1('ゆ')),
                _ => None,
            }
        },
        'z' => {
            match c1 {
                'a' => Some(kana1('ざ')),
                'e' => Some(kana1('ぜ')),
                'i' => Some(kana1('じ')),
                'o' => Some(kana1('ぞ')),
                'u' => Some(kana1('ず')),
                _ => None,
            }
        },
        _ => None,
    }
}

fn rule3_exec(c0: char, c1: char, c2: char) -> (r: Option<Vec<char>>)
    ensures
        match r { Some(v) => rule3(c0, c1, c2) == Some(v@), None => rule3(c0, c1, c2) is None },
{
    match c0 {
        'b' => {
            match c1 {
                'y' => {
                    match c2 {
                        'a' => Some(kana2('び', 'ゃ')),
                        'e' => Some(kana2('び', 'ぇ')),
                        'i' => Some(kana2('び', 'ぃ')),
                        'o' => Some(kana2('び', 'ょ')),
                        'u' => Some(kana2('び', 'ゅ')),
                        _ => None,
                    }
                },
                _ => None,
            }
        },
        'c' => {
            match c1 {
                'h' => {
                    match c2 {
                        'a' => Some(kana2('ち', 'ゃ')),
                        'e' => Some(kana2('ち', 'ぇ')),
                        'i' => Some(kana1('ち')),
                        'o' => Some(kana2('ち', 'ょ')),
                        'u' => Some(kana2('ち', 'ゅ')),
                        _ => None,
                    }
                },
                _ => None,
            }
        },
        'd' => {
            match c1 {
                'h' => {
                    match c2 {
                        'a' => Some(kana2('で', 'ゃ')),
                        'e' => Some(kana2('で', 'ぇ')),
                        'i' => Some(kana2('で', 'ぃ')),
                        'o' => Some(kana2('で', 'ょ')),
                        'u' => Some(kana2('で', 'ゅ')),
                        _ => None,
                    }
                },
                'y' => {
                    match c2 {
                        'a' => Some(kana2('ぢ', 'ゃ')),
                        'e' => Some(kana2('ぢ', 'ぇ')),
                        'i' => Some(kana2('ぢ', 'ぃ')),
                        'o' => Some(kana2('ぢ', 'ょ')),
                        'u' => Some(kana2('ぢ', 'ゅ')),
                        _ => None,
                    }
                },
                _ => None,
            }
        },
        'g' => {
            match c1 {
                'y' => {
                    match c2 {
                        'a' => Some(kana2('ぎ', 'ゃ')),
                        'e' => Some(kana2('ぎ', 'ぇ')),
                        'i' => Some(kana2('ぎ', 'ぃ')),
                        'o' => Some(kana2('ぎ', 'ょ')),
                        'u' => Some(kana2('ぎ', 'ゅ')),
                        _ => None,
                    }
                },
                _ => None,
            }
        },
        'h' => {
            match c1 {
                'y' => {
                    match c2 {
                        'a' => Some(kana2('ひ', 'ゃ')),
                        'e' => Some(kana2('ひ', 'ぇ')),
                        'i' => Some(kana2('ひ', 'ぃ')),
                        'o' => Some(kana2('ひ', 'ょ')),
                        'u' => Some(kana2('ひ', 'ゅ')),
                        _ => None,
                    }
                },
                _ => None,
            }
        },
        'j' => {
            match c1 {
                'y' => {
                    match c2 {
                        'a' => Some(kana2('じ', 'ゃ')),
                        'e' => Some(kana2('じ', 'ぇ')),
                        'i' => Some(kana2('じ', 'ぃ')),
                        'o' => Some(kana2('じ', 'ょ')),
                        'u' => Some(kana2('じ', 'ゅ')),
                        _ => None,
                    }
                },
                _ => None,
            }
        },
        'k' => {
            match c1 {
                'y' => {
                    match c2 {
                        'a' => Some(kana2('き', 'ゃ')),
                        'e' => Some(kana2('き', 'ぇ')),
                        'i' => Some(kana2('き', 'ぃ')),
                        'o' => Some(kana2('き', 'ょ')),
                        'u' => Some(kana2('き', 'ゅ')),
                        _ => None,
                    }
                },
                _ => None,
            }
        },
        'l' => {
            match c1 {
                't' => {
                    match c2 {
                        'u' => Some(kana1('っ')),
                        _ => None,
                    }
                },
                'w' => {
                    match c2 {
                        'a' => Some(kana1('ゎ')),
                        _ => None,
                    }
                },
                'y' => {
                    match c2 {
                        'a' => Some(kana1('ゃ')),
                        'o' => Some(kana1('ょ')),
                        'u' => Some(kana1('ゅ')),
                        _ => None,
                    }
                },
                _ => None,
            }
        },
        'm' => {
            match c1 {
                'y' => {
                    match c2 {
                        'a' => Some(kana2('み', 'ゃ')),
                        'e' => Some(kana2('み', 'ぇ')),
                        'i' => Some(kana2('み', 'ぃ')),
                        'o' => Some(kana2('み', 'ょ')),
                        'u' => Some(kana2('み', 'ゅ')),
                        _ => None,
                    }
                },
                _ => None,
            }
        },
        'n' => {
            match c1 {
                'y' => {
                    match c2 {
                        'a' => Some(kana2('に', 'ゃ')),
                        'e' => Some(kana2('に', 'ぇ')),
                        'i' => Some(kana2('に', 'ぃ')),
                        'o' => Some(kana2('に', 'ょ')),
                        'u' => Some(kana2('に', 'ゅ')),
                        _ => None,
                    }
                },
                _ => None,
            }
        },
        'p' => {
            match c1 {
                'y' => {
                    match c2 {
                        'a' => Some(kana2('ぴ', 'ゃ')),
                        'e' => Some(kana2('ぴ', 'ぇ')),
                        'i' => Some(kana2('ぴ', 'ぃ')),
                        'o' => Some(kana2('ぴ', 'ょ')),
                        'u' => Some(kana2('ぴ', 'ゅ')),
                        _ => None,
                    }
                },
                _ => None,
            }
        },
        'r' => {
            match c1 {
                'y' => {
                    match c2 {
                        'a' => Some(kana2('り', 'ゃ')),
                        'e' => Some(kana2('り', 'ぇ')),
                        'i' => Some(kana2('り', 'ぃ')),
                        'o' => Some(kana2('り', 'ょ')),
                        'u' => Some(kana2('り', 'ゅ')),
                        _ => None,
                    }
                },
                _ => None,
            }
        },
        's' => {
            match c1 {
                'h' => {
                    match c2 {
                        'a' => Some(kana2('し', 'ゃ')),
                        'e' => Some(kana2('し', 'ぇ')),
                        'i' => Some(kana1('し')),
                        'o' => Some(kana2('し', 'ょ')),
                        'u' => Some(kana2('し', 'ゅ')),
                        _ => None,
                    }
                },
                'y' => {
                    match c2 {
                        'a' => Some(kana2('し', 'ゃ')),
                        'e' => Some(kana2('し', 'ぇ')),
                        'i' => Some(kana2('し', 'ぃ')),
                        'o' => Some(kana2('し', 'ょ')),
                        'u' => Some(kana2('し', 'ゅ')),
                        _ => None,
                    }
                },
                _ => None,
            }
        },
        't' => {
            match c1 {
                'h' => {
                    match c2 {
                        'a' => Some(kana2('て', 'ゃ')),
                        'e' => Some(kana2('て', 'ぇ')),
                        'i' => Some(kana2('て', 'ぃ')),
                        'o' => Some(kana2('て', 'ょ')),
                        'u' => Some(kana2('て', 'ゅ')),
                        _ => None,
                    }
                },
                's' => {
                    match c2 {
                        'a' => Some(kana2('つ', 'ぁ')),
                        'e' => Some(kana2('つ', 'ぇ')),
                        'i' => Some(kana2('つ', 'ぃ')),
                        'o' => Some(kana2('つ', 'ぉ')),
                        'u' => Some(kana1('つ')),
                        _ => None,
                    }
                },
                'y' => {
                    match c2 {
                        'a' => Some(kana2('ち', 'ゃ')),
                        'e' => Some(kana2('ち', 'ぇ')),
                        'i' => Some(kana2('ち', 'ぃ')),
                        'o' => Some(kana2('ち', 'ょ')),
                        'u' => Some(kana2('ち', 'ゅ')),
                        _ => None,
                    }
                },
                _ => None,
            }
        },
        'x' => {
            match c1 {
                't' => {
                    match c2 {
                        'u' => Some(kana1('っ')),
                        _ => None,
                    }
                },
                'w' => {
                    match c2 {
                        'a' => Some(kana1('ゎ')),
                        _ => None,
                    }
                },
                'y' => {
                    match c2 {
                        'a' => Some(kana1('ゃ')),
                        'o' => Some(kana1('ょ')),
                        'u' => Some(kana1('ゅ')),
                        _ => None,
                    }
                },
                _ => None,
            }
        },
        'z' => {
            match c1 {
                'y' => {
                    match c2 {
                        'a' => Some(kana2('じ', 'ゃ')),
                        'e' => Some(kana2('じ', 'ぇ')),
                        'i' => Some(kana2('じ', 'ぃ')),
                        'o' => Some(kana2('じ', 'ょ')),
                        'u' => Some(kana2('じ', 'ゅ')),
                        _ => None,
                    }
                },
                _ => None,
            }
        },
        _ => None,
    }
}

fn rule4_exec(c0: char, c1: char, c2: char, c3: char) -> (r: Option<Vec<char>>)
    ensures
        match r { Some(v) => rule4(c0, c1, c2, c3) == Some(v@), None => rule4(c0, c1, c2, c3) is None },
{
    match c0 {
        'l' => {
            match c1 {
                't' => {
                    match c2 {
                        's' => {
                            match c3 {
                                'u' => Some(kana1('っ')),
                                _ => None,
                            }
                        },
                        _ => None,
                    }
                },
                _ => None,
            }
        },
        'x' => {
            match c1 {
                't' => {
                    match c2 {
                        's' => {
                            match c3 {
                                'u' => Some(kana1('っ')),
                                _ => None,
                            }
                        },
                        _ => None,
                    }
                },
                _ => None,
            }
        },
        _ => None,
    }
}

/// Whether the 1 characters begin a longer key.
pub open spec fn pending1(c0: char) -> bool {
    (c0 == 'b')
    || (c0 == 'c')
    || (c0 == 'd')
    || (c0 == 'f')
    || (c0 == 'g')
    || (c0 == 'h')
    || (c0 == 'j')
    || (c0 == 'k')
    || (c0 == 'l')
    || (c0 == 'm')
    || (c0 == 'n')
    || (c0 == 'p')
    || (c0 == 'r')
    || (c0 == 's')
    || (c0 == 't')
    || (c0 == 'v')
    || (c0 == 'w')
    || (c0 == 'x')
    || (c0 == 'y')
    || (c0 == 'z')
}

fn pending1_exec(c0: char) -> (r: bool)
    ensures
        r == pending1(c0),
{
    (c0 == 'b')
    || (c0 == 'c')
    || (c0 == 'd')
    || (c0 == 'f')
    || (c0 == 'g')
    || (c0 == 'h')
    || (c0 == 'j')
    || (c0 == 'k')
    || (c0 == 'l')
    || (c0 == 'm')
    || (c0 == 'n')
    || (c0 == 'p')
    || (c0 == 'r')
    || (c0 == 's')
    || (c0 == 't')
    || (c0 == 'v')
    || (c0 == 'w')
    || (c0 == 'x')
    || (c0 == 'y')
    || (c0 == 'z')
}

/// Whether the 2 characters begin a longer key.
pub open spec fn pending2(c0: char, c1: char) -> bool {
    (c0 == 'b' && c1 == 'y')
    || (c0 == 'c' && c1 == 'h')
    || (c0 == 'd' && c1 == 'h')
    || (c0 == 'd' && c1 == 'y')
    || (c0 == 'g' && c1 == 'y')
    || (c0 == 'h' && c1 == 'y')
    || (c0 == 'j' && c1 == 'y')
    || (c0 == 'k' && c1 == 'y')
    || (c0 == 'l' && c1 == 't')
    || (c0 == 'l' && c1 == 'w')
    || (c0 == 'l' && c1 == 'y')
    || (c0 == 'm' && c1 == 'y')
    || (c0 == 'n' && c1 == 'y')
    || (c0 == 'p' && c1 == 'y')
    || (c0 == 'r' && c1 == 'y')
    || (c0 == 's' && c1 == 'h')
    || (c0 == 's' && c1 == 'y')
    || (c0 == 't' && c1 == 'h')
    || (c0 == 't' && c1 == 's')
    || (c0 == 't' && c1 == 'y')
    || (c0 == 'x' && c1 == 't')
    || (c0 == 'x' && c1 == 'w')
    || (c0 == 'x' && c1 == 'y')
    || (c0 == 'z' && c1 == 'y')
}

fn pending2_exec(c0: char, c1: char) -> (r: bool)
    ensures
        r == pending2(c0, c1),
{
    (c0 == 'b' && c1 == 'y')
    || (c0 == 'c' && c1 == 'h')
    || (c0 == 'd' && c1 == 'h')
    || (c0 == 'd' && c1 == 'y')
    || (c0 == 'g' && c1 == 'y')
    || (c0 == 'h' && c1 == 'y')
    || (c0 == 'j' && c1 == 'y')
    || (c0 == 'k' && c1 == 'y')
    || (c0 == 'l' && c1 == 't')
    || (c0 == 'l' && c1 == 'w')
    || (c0 == 'l' && c1 == 'y')
    || (c0 == 'm' && c1 == 'y')
    || (c0 == 'n' && c1 == 'y')
    || (c0 == 'p' && c1 == 'y')
    || (c0 == 'r' && c1 == 'y')
    || (c0 == 's' && c1 == 'h')
    || (c0 == 's' && c1 == 'y')
    || (c0 == 't' && c1 == 'h')
    || (c0 == 't' && c1 == 's')
    || (c0 == 't' && c1 == 'y')
    || (c0 == 'x' && c1 == 't')
    || (c0 == 'x' && c1 == 'w')
    || (c0 == 'x' && c1 == 'y')
    || (c0 == 'z' && c1 == 'y')
}

/// Whether the 3 characters begin a longer key.
pub open spec fn pending3(c0: char, c1: char, c2: char) -> bool {
    (c0 == 'l' && c1 == 't' && c2 == 's')
    || (c0 == 'x' && c1 == 't' && c2 == 's')
}

fn pending3_exec(c0: char, c1: char, c2: char) -> (r: bool)
    ensures
        r == pending3(c0, c1, c2),
{
    (c0 == 'l' && c1 == 't' && c2 == 's')
    || (c0 == 'x' && c1 == 't' && c2 == 's')
}

/// The kana for a complete romaji key, if `k` is one.
pub open spec fn rule_of(k: Seq<char>) -> Option<Seq<char>> {
    if k.len() == 1 {
        rule1(k[0])
    } else if k.len() == 2 {
        rule2(k[0], k[1])
    } else if k.len() == 3 {
        rule3(k[0], k[1], k[2])
    } else if k.len() == 4 {
        rule4(k[0], k[1], k[2], k[3])
    } else {
        None
    }
}

/// Whether `k` is the start of a longer romaji key.
pub open spec fn pending(k: Seq<char>) -> bool {
    if k.len() == 1 {
        pending1(k[0])
    } else if k.len() == 2 {
        pending2(k[0], k[1])
    } else if k.len() == 3 {
        pending3(k[0], k[1], k[2])
    } else {
        false
    }
}

fn rule_lookup(k: &[char]) -> (r: Option<Vec<char>>)
    ensures
        match r {
            Some(v) => rule_of(k@) == Some(v@),
            None => rule_of(k@) is None,
        },
{
    if k.len() == 1 {
        rule1_exec(k[0])
    } else if k.len() == 2 {
        rule2_exec(k[0], k[1])
    } else if k.len() == 3 {
        rule3_exec(k[0], k[1], k[2])
    } else if k.len() == 4 {
        rule4_exec(k[0], k[1], k[2], k[3])
    } else {
        None
    }
}

fn is_pending(k: &[char]) -> (r: bool)
    ensures
        r == pending(k@),
{
    if k.len() == 1 {
        pending1_exec(k[0])
    } else if k.len() == 2 {
        pending2_exec(k[0], k[1])
    } else if k.len() == 3 {
        pending3_exec(k[0], k[1], k[2])
    } else {
        false
    }
}

/// A consonant that doubles into a small `っ` (`kk` → `っk`).
pub open spec fn doubles(c: char) -> bool {
    'a' <= c && c <= 'z' && c != 'a' && c != 'i' && c != 'u' && c != 'e' && c != 'o' && c != 'n'
}

/// Typing `c` with `buf` pending: the characters emitted and the new
/// pending text. A complete key emits its kana; the start of a longer key
/// waits; a pending `n` before anything else emits `ん`; a doubled consonant
/// emits `っ`; otherwise the first pending character passes through as it
/// is and the rest is tried again.
pub open spec fn step(buf: Seq<char>, c: char) -> (Seq<char>, Seq<char>)
    decreases buf.len(),
{
    let s = buf.push(c);
    match rule_of(s) {
        Some(k) => (k, Seq::empty()),
        None => if pending(s) {
            (Seq::empty(), s)
        } else if buf == seq!['n'] {
            let r = step(Seq::empty(), c);
            (seq!['ん'] + r.0, r.1)
        } else if buf.len() == 1 && buf[0] == c && doubles(c) {
            (seq!['っ'], seq![c])
        } else if buf.len() == 0 {
            (seq![c], Seq::empty())
        } else {
            let r = step(buf.subrange(1, buf.len() as int), c);
            (seq![buf[0]] + r.0, r.1)
        },
    }
}

/// What the pending text becomes when input ends: a lone `n` is `ん`,
/// anything else stays as typed.
pub open spec fn flushed(buf: Seq<char>) -> Seq<char> {
    if buf == seq!['n'] { seq!['ん'] } else { buf }
}

/// The converter: kana produced so far and the romaji still pending.
#[derive(Debug)]
pub struct RomajiConverter {
    output: String,
    buffer: String,
}

impl RomajiConverter {
    /// Everything emitted since the last reset.
    pub closed spec fn output_view(&self) -> Seq<char> {
        self.output@
    }

    /// The romaji typed but not yet converted.
    pub closed spec fn buffer_view(&self) -> Seq<char> {
        self.buffer@
    }

    /// A converter with nothing typed.
    pub fn new() -> (r: Self)
        ensures
            r.output_view().len() == 0,
            r.buffer_view().len() == 0,
    {
        RomajiConverter { output: String::new(), buffer: String::new() }
    }

    /// Types `c`; returns the characters it emitted.
    pub fn push(&mut self, c: char) -> (emitted: String)
        ensures
            emitted@ == step(old(self).buffer_view(), c).0,
            final(self).buffer_view() == step(old(self).buffer_view(), c).1,
            final(self).output_view() == old(self).output_view() + emitted@,
    {
        let buf = chars_of(self.buffer.as_str());
        let (out, rest) = step_exec(buf, c);
        let emitted = string_from_chars(out.as_slice());
        push_chars(&mut self.output, out.as_slice());
        self.buffer = string_from_chars(rest.as_slice());
        emitted
    }

    /// Everything emitted since the last reset.
    pub fn output(&self) -> (o: &str)
        ensures
            o@ == self.output_view(),
    {
        self.output.as_str()
    }

    /// The romaji typed but not yet converted.
    pub fn buffer(&self) -> (b: &str)
        ensures
            b@ == self.buffer_view(),
    {
        self.buffer.as_str()
    }

    /// Forgets everything typed.
    pub fn reset(&mut self)
        ensures
            final(self).output_view().len() == 0,
            final(self).buffer_view().len() == 0,
    {
        self.output = String::new();
        self.buffer = String::new();
    }

    /// Removes the last pending romaji character, if any.
    pub fn backspace(&mut self)
        ensures
            final(self).output_view() == old(self).output_view(),
            old(self).buffer_view().len() == 0 ==> final(self).buffer_view().len() == 0,
            old(self).buffer_view().len() > 0 ==> final(self).buffer_view() == old(self).buffer_view().drop_last(),
    {
        let mut buf = chars_of(self.buffer.as_str());
        if buf.len() > 0 {
            buf.pop();
            self.buffer = string_from_chars(buf.as_slice());
        }
    }

    /// Ends the pending romaji: returns what it becomes (see [`flushed`])
    /// and empties the buffer.
    pub fn flush(&mut self) -> (tail: String)
        ensures
            tail@ == flushed(old(self).buffer_view()),
            final(self).buffer_view().len() == 0,
            final(self).output_view() == old(self).output_view() + tail@,
    {
        let buf = chars_of(self.buffer.as_str());
        let tail = if buf.len() == 1 && buf[0] == 'n' {
            let mut t = String::new();
            push_char(&mut t, 'ん');
            assert(buf@ =~= seq!['n']);
            t
        } else {
            proof {
                if buf@ == seq!['n'] {
                    assert(buf@[0] == 'n');
                }
            }
            string_from_chars(buf.as_slice())
        };
        let tail_chars = chars_of(tail.as_str());
        push_chars(&mut self.output, tail_chars.as_slice());
        self.buffer = String::new();
        tail
    }
}

fn step_exec(buf: Vec<char>, c: char) -> (r: (Vec<char>, Vec<char>))
    ensures
        r.0@ == step(buf@, c).0,
        r.1@ == step(buf@, c).1,
    decreases buf@.len(),
{
    let mut s = buf.clone();
    s.push(c);
    assert(s@ =~= buf@.push(c));
    match rule_lookup(s.as_slice()) {
        Some(k) => (k, Vec::new()),
        None => {
            if is_pending(s.as_slice()) {
                (Vec::new(), s)
            } else if buf.len() == 1 && buf[0] == 'n' {
                assert(buf@ =~= seq!['n']);
                let (o, rest) = step_exec(Vec::new(), c);
                let mut out = Vec::new();
                out.push('ん');
                let mut i: usize = 0;
                while i < o.len()
                    invariant
                        i <= o@.len(),
                        out@ == seq!['ん'] + o@.take(i as int),
                    decreases o@.len() - i,
                {
                    out.push(o[i]);
                    assert(o@.take(i + 1) =~= o@.take(i as int).push(o@[i as int]));
                    i += 1;
                }
                assert(o@.take(i as int) =~= o@);
                assert(Seq::<char>::empty() =~= Seq::<char>::empty().push(c).drop_last());
                (out, rest)
            } else if buf.len() == 1 && buf[0] == c && 'a' <= c && c <= 'z' && c != 'a' && c != 'i' && c != 'u' && c != 'e' && c != 'o' && c != 'n' {
                proof {
                    if buf@ == seq!['n'] {
                        assert(buf@[0] == 'n');
                    }
                }
                let mut o = Vec::new();
                o.push('っ');
                let mut rest = Vec::new();
                rest.push(c);
                (o, rest)
            } else if buf.len() == 0 {
                let mut o = Vec::new();
                o.push(c);
                (o, Vec::new())
            } else {
                proof {
                    if buf@ == seq!['n'] {
                        assert(buf@[0] == 'n');
                    }
                }
                let mut tail: Vec<char> = Vec::new();
                let mut i: usize = 1;
                while i < buf.len()
                    invariant
                        1 <= i <= buf@.len(),
                        tail@ == buf@.subrange(1, i as int),
                    decreases buf@.len() - i,
                {
                    tail.push(buf[i]);
                    assert(buf@.subrange(1, i + 1) =~= buf@.subrange(1, i as int).push(buf@[i as int]));
                    i += 1;
                }
                let (o, rest) = step_exec(tail, c);
                let mut out = Vec::new();
                out.push(buf[0]);
                let mut j: usize = 0;
                while j < o.len()
                    invariant
                        j <= o@.len(),
                        out@ == seq![buf@[0]] + o@.take(j as int),
                    decreases o@.len() - j,
                {
                    out.push(o[j]);
                    assert(o@.take(j + 1) =~= o@.take(j as int).push(o@[j as int]));
                    j += 1;
                }
                assert(o@.take(j as int) =~= o@);
                (out, rest)
            }
        },
    }
}

} // verus!
