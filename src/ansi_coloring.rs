//! ANSI escape sequences that colour and style terminal text.
use crate::strings::string_from_utf8;
use vstd::prelude::*;
use vstd::utf8::{
    encode_utf8, encode_utf8_valid_utf8, partial_valid_utf8, partial_valid_utf8_extend_ascii_block,
    valid_utf8, valid_utf8_concat,
};

verus! {

/// The codes of a colour: normal and bright.
#[derive(Copy, Clone, Debug, PartialEq, Eq, Structural)]
pub struct ColorData {
    pub normal: u8,
    pub bright: u8,
}

/// The codes of every colour of one layer (foreground or background).
#[derive(Copy, Clone, Debug, PartialEq, Eq, Structural)]
pub struct Colors {
    pub black: ColorData,
    pub red: ColorData,
    pub green: ColorData,
    pub yellow: ColorData,
    pub blue: ColorData,
    pub magenta: ColorData,
    pub cyan: ColorData,
    pub white: ColorData,
    pub default: ColorData,
}

/// The colour codes of the foreground and of the background.
#[derive(Copy, Clone, Debug, PartialEq, Eq, Structural)]
pub struct ColorStyles {
    pub foreground: Colors,
    pub background: Colors,
}

/// The codes of the font styles.
#[allow(non_snake_case)]
#[derive(Copy, Clone, Debug, PartialEq, Eq, Structural)]
pub struct FontStyles {
    pub bold: u8,
    pub faint: u8,
    pub italic: u8,
    pub underline: u8,
    pub blinkSlow: u8,
    pub blinkFast: u8,
    pub invert: u8,
    pub conceal: u8,
    pub strikethrough: u8,
    pub overlined: u8,
}

/// The control sequence introducer.
pub const CSI: u8 = 0x1B;

/// Style of the date and time in logs: bright green.
pub const DATETIME_STYLE: u8 = 92;

/// Style of the `[WARNING]` tag: yellow.
pub const WARN_STYLE: u8 = 33;

/// The decimal digits of `n`, as ASCII bytes.
pub open spec fn decimal(n: u8) -> Seq<u8> {
    if n < 10 {
        seq![(0x30 + n) as u8]
    } else if n < 100 {
        seq![(0x30 + n / 10) as u8, (0x30 + n % 10) as u8]
    } else {
        seq![(0x30 + n / 100) as u8, (0x30 + (n / 10) % 10) as u8, (0x30 + n % 10) as u8]
    }
}

/// The codes in decimal, separated by semicolons.
pub open spec fn joined_codes(styles: Seq<u8>) -> Seq<u8>
    decreases styles.len(),
{
    if styles.len() == 0 {
        seq![]
    } else if styles.len() == 1 {
        decimal(styles[0])
    } else {
        joined_codes(styles.drop_last()) + seq![0x3Bu8] + decimal(styles.last())
    }
}

/// The bytes of `string` wrapped in the escape sequences of `styles` and of a reset.
pub open spec fn styled_bytes(string: Seq<char>, styles: Seq<u8>) -> Seq<u8> {
    seq![CSI, 0x5Bu8] + joined_codes(styles) + seq![0x6Du8] + encode_utf8(string) + seq![
        CSI,
        0x5Bu8,
        0x30u8,
        0x6Du8,
    ]
}

fn push_decimal(out: &mut Vec<u8>, n: u8)
    ensures
        final(out)@ == old(out)@ + decimal(n),
{
    if n < 10 {
        out.push(0x30 + n);
    } else if n < 100 {
        out.push(0x30 + n / 10);
        out.push(0x30 + n % 10);
    } else {
        out.push(0x30 + n / 100);
        out.push(0x30 + (n / 10) % 10);
        out.push(0x30 + n % 10);
    }
    proof {
        assert(final(out)@ =~= old(out)@ + decimal(n));
    }
}

proof fn lemma_decimal_ascii(n: u8)
    ensures
        forall|i: int| 0 <= i < decimal(n).len() ==> #[trigger] decimal(n)[i] < 0x80,
{
}

proof fn lemma_joined_ascii(styles: Seq<u8>)
    ensures
        forall|i: int| 0 <= i < joined_codes(styles).len() ==> #[trigger] joined_codes(styles)[i] < 0x80,
    decreases styles.len(),
{
    if styles.len() == 1 {
        lemma_decimal_ascii(styles[0]);
    } else if styles.len() > 1 {
        lemma_joined_ascii(styles.drop_last());
        lemma_decimal_ascii(styles.last());
        let a = joined_codes(styles.drop_last());
        let d = decimal(styles.last());
        assert(joined_codes(styles) == a + seq![0x3Bu8] + d);
        assert forall|i: int| 0 <= i < joined_codes(styles).len() implies #[trigger] joined_codes(
            styles,
        )[i] < 0x80 by {
            if i < a.len() {
                assert(joined_codes(styles)[i] == a[i]);
            } else if i > a.len() {
                assert(joined_codes(styles)[i] == d[i - a.len() - 1]);
            }
        }
    }
}

proof fn lemma_ascii_valid(b: Seq<u8>)
    requires
        forall|i: int| 0 <= i < b.len() ==> #[trigger] b[i] < 0x80,
    ensures
        valid_utf8(b),
{
    assert(partial_valid_utf8(b, 0)) by {
        assert(b.subrange(0, 0) =~= Seq::<u8>::empty());
    }
    partial_valid_utf8_extend_ascii_block(b, 0, b.len() as int);
    assert(b.subrange(0, b.len() as int) =~= b);
}

/// `string` wrapped in ANSI escape sequences: the control sequence introducer,
/// `[`, the style codes in decimal joined by `;`, `m`, the text, and the reset
/// sequence. The result's UTF-8 bytes are `styled_bytes(string@, styles@)`.
pub fn style_text(string: &str, styles: &[u8]) -> (r: String)
    ensures
        encode_utf8(r@) == styled_bytes(string@, styles@),
{
    let mut head: Vec<u8> = Vec::new();
    head.push(CSI);
    head.push(0x5B);
    let mut i: usize = 0;
    proof {
        assert(head@ =~= seq![CSI, 0x5Bu8] + joined_codes(styles@.take(0)));
    }
    while i < styles.len()
        invariant
            i <= styles@.len(),
            head@ == seq![CSI, 0x5Bu8] + joined_codes(styles@.take(i as int)),
        decreases styles@.len() - i,
    {
        let ghost before = head@;
        if i > 0 {
            head.push(0x3B);
        }
        push_decimal(&mut head, styles[i]);
        proof {
            let t = styles@.take(i + 1);
            assert(t.drop_last() =~= styles@.take(i as int));
            assert(t.last() == styles@[i as int]);
            if i == 0 {
                assert(head@ =~= seq![CSI, 0x5Bu8] + joined_codes(t));
            } else {
                assert(head@ =~= seq![CSI, 0x5Bu8] + joined_codes(t));
            }
        }
        i = i + 1;
    }
    head.push(0x6D);
    let text = string.as_bytes();
    let mut body: Vec<u8> = Vec::new();
    let mut j: usize = 0;
    while j < text.len()
        invariant
            j <= text@.len(),
            body@ == text@.take(j as int),
        decreases text@.len() - j,
    {
        body.push(text[j]);
        j = j + 1;
        proof {
            assert(body@ =~= text@.take(j as int));
        }
    }
    let mut tail: Vec<u8> = Vec::new();
    tail.push(CSI);
    tail.push(0x5B);
    tail.push(0x30);
    tail.push(0x6D);
    let ghost h = head@;
    let ghost t = tail@;
    proof {
        assert(styles@.take(styles@.len() as int) =~= styles@);
        assert(body@ =~= encode_utf8(string@));
        lemma_joined_ascii(styles@);
        assert forall|k: int| 0 <= k < h.len() implies #[trigger] h[k] < 0x80 by {
            if 2 <= k < h.len() - 1 {
                assert(h[k] == joined_codes(styles@)[k - 2]);
            }
        }
        lemma_ascii_valid(h);
        lemma_ascii_valid(t);
        encode_utf8_valid_utf8(string@);
        valid_utf8_concat(h, body@);
        valid_utf8_concat(h + body@, t);
    }
    head.append(&mut body);
    head.append(&mut tail);
    proof {
        assert(head@ =~= styled_bytes(string@, styles@));
    }
    match string_from_utf8(head) {
        Some(s) => s,
        None => {
            proof {
                assert(false);
            }
            String::new()
        },
    }
}

} // verus!
