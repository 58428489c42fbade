//! Sixel: the picture itself, in the terminal's text stream.
//!
//! Colours are reduced to a cube of six levels per channel (216 colour
//! registers), transparency resolved against white. Each band of six pixel
//! rows is drawn one colour at a time; a sixel character carries the six
//! pixels of one column that take that colour.
use vstd::prelude::*;
use crate::image::{flatten, pixel_on_white, well_formed_rgba};
use crate::text::{decimal, push_decimal, push_str};

verus! {

/// The number of colour registers: six levels per channel.
pub const REGISTERS: usize = 216;

/// The level, 0 to 5, nearest to a channel value.
pub open spec fn level(c: u8) -> int {
    (10 * c + 255) / 510
}

/// The register of a colour: its levels, red first.
pub open spec fn register_of(colour: (u8, u8, u8)) -> int {
    36 * level(colour.0) + 6 * level(colour.1) + level(colour.2)
}

/// The register of every pixel, row by row, of an RGBA buffer `width` wide.
pub open spec fn registers_of(rgba: Seq<u8>, width: int, height: int) -> Seq<u8> {
    Seq::new(
        (width * height) as nat,
        |i: int| register_of(pixel_on_white(rgba, width, i % width, i / width)) as u8,
    )
}

/// The weight of the `k`-th pixel from the top of a sixel.
pub open spec fn weight(k: int) -> int {
    seq![1int, 2, 4, 8, 16, 32, 64][k]
}

/// The bits of the sixel for register `reg` in column `x` of `band`, from its
/// first `k` pixels.
pub open spec fn sixel_bits(regs: Seq<u8>, width: int, height: int, band: int, reg: int, x: int, k: int) -> int
    decreases k,
{
    if k <= 0 {
        0
    } else {
        let y = 6 * band + k - 1;
        sixel_bits(regs, width, height, band, reg, x, k - 1) + if y < height && regs[y * width + x]
            == reg {
            weight(k - 1)
        } else {
            0
        }
    }
}

/// The sixel characters of one colour across a band.
pub open spec fn sixel_row(regs: Seq<u8>, width: int, height: int, band: int, reg: int) -> Seq<char> {
    Seq::new(width as nat, |x: int| (63 + sixel_bits(regs, width, height, band, reg, x, 6)) as char)
}

/// Whether a colour shows anywhere in a band.
pub open spec fn row_used(regs: Seq<u8>, width: int, height: int, band: int, reg: int) -> bool {
    exists|x: int| 0 <= x < width && #[trigger] sixel_row(regs, width, height, band, reg)[x] != '?'
}

/// The first `r` colours of a band, each that shows as `#reg`, its sixels
/// and a return to the band's start.
pub open spec fn band_text(regs: Seq<u8>, width: int, height: int, band: int, r: int) -> Seq<char>
    decreases r,
{
    if r <= 0 {
        Seq::empty()
    } else {
        band_text(regs, width, height, band, r - 1) + if row_used(regs, width, height, band, r - 1) {
            seq!['#'] + decimal((r - 1) as nat) + sixel_row(regs, width, height, band, r - 1) + seq!['$']
        } else {
            Seq::empty()
        }
    }
}

/// The first `b` bands, separated by a move to the next band.
pub open spec fn bands_text(regs: Seq<u8>, width: int, height: int, b: int) -> Seq<char>
    decreases b,
{
    if b <= 0 {
        Seq::empty()
    } else if b == 1 {
        band_text(regs, width, height, 0, REGISTERS as int)
    } else {
        bands_text(regs, width, height, b - 1) + seq!['-'] + band_text(
            regs,
            width,
            height,
            b - 1,
            REGISTERS as int,
        )
    }
}

/// The definition of register `reg`: its colour in percent of red, green
/// and blue, read from its digits in base six.
pub open spec fn palette_entry(reg: int) -> Seq<char> {
    seq!['#'] + decimal(reg as nat) + ";2;"@ + decimal((20 * (reg / 36)) as nat) + seq![';']
        + decimal((20 * ((reg / 6) % 6)) as nat) + seq![';'] + decimal((20 * (reg % 6)) as nat)
}

/// The definitions of the first `r` registers, in percent of each channel.
pub open spec fn palette_text(r: int) -> Seq<char>
    decreases r,
{
    if r <= 0 {
        Seq::empty()
    } else {
        palette_text(r - 1) + palette_entry(r - 1)
    }
}

/// The sixel image of an RGBA buffer `width` x `height`.
pub open spec fn sixel_image(rgba: Seq<u8>, width: u32, height: u32) -> Seq<char> {
    let regs = registers_of(rgba, width as int, height as int);
    "\x1bPq\"1;1;"@ + decimal(width as nat) + seq![';'] + decimal(height as nat) + palette_text(
        REGISTERS as int,
    ) + bands_text(regs, width as int, height as int, (height + 5) / 6) + "\x1b\\"@
}

fn level_of(c: u8) -> (out: u8)
    ensures
        out == level(c),
        out <= 5,
{
    ((10 * (c as u32) + 255) / 510) as u8
}

fn registers(rgba: &Vec<u8>, width: u32, height: u32) -> (out: Vec<u8>)
    requires
        well_formed_rgba(width, height, rgba@),
    ensures
        out@ == registers_of(rgba@, width as int, height as int),
        forall|i: int| 0 <= i < out@.len() ==> #[trigger] out@[i] < REGISTERS,
{
    let w = width as usize;
    let h = height as usize;
    let total = rgba.len();
    assert(4 * (h * w) == 4 * width * height) by (nonlinear_arith)
        requires
            w == width,
            h == height,
    ;
    let mut out: Vec<u8> = Vec::new();
    let mut y: usize = 0;
    while y < h
        invariant
            y <= h,
            w == width,
            h == height,
            total == rgba@.len(),
            4 * (h * w) == total,
            well_formed_rgba(width, height, rgba@),
            out@.len() == y * w,
            forall|i: int|
                0 <= i < y * w ==> #[trigger] out@[i] == registers_of(rgba@, w as int, h as int)[i],
            forall|i: int| 0 <= i < out@.len() ==> #[trigger] out@[i] < REGISTERS,
        decreases h - y,
    {
        let mut x: usize = 0;
        assert((y + 1) * w <= h * w) by (nonlinear_arith)
            requires
                y < h,
        ;
        while x < w
            invariant
                x <= w,
                y < h,
                w == width,
                h == height,
                total == rgba@.len(),
                4 * (h * w) == total,
                well_formed_rgba(width, height, rgba@),
                (y + 1) * w <= h * w,
                out@.len() == y * w + x,
                forall|i: int|
                    0 <= i < y * w + x ==> #[trigger] out@[i] == registers_of(rgba@, w as int, h as int)[i],
                forall|i: int| 0 <= i < out@.len() ==> #[trigger] out@[i] < REGISTERS,
            decreases w - x,
        {
            assert(4 * (y * w + x) + 3 < 4 * (h * w)) by (nonlinear_arith)
                requires
                    x < w,
                    (y + 1) * w <= h * w,
            ;
            let at = 4 * (y * w + x);
            let (r, g, b) = flatten([rgba[at], rgba[at + 1], rgba[at + 2], rgba[at + 3]]);
            let reg = 36 * level_of(r) + 6 * level_of(g) + level_of(b);
            proof {
                let i = y * w + x;
                assert(i % (w as int) == x && i / (w as int) == y) by (nonlinear_arith)
                    requires
                        i == y * w + x,
                        x < w,
                ;
            }
            out.push(reg);
            x += 1;
        }
        y += 1;
        assert(y * w == (y - 1) * w + w) by (nonlinear_arith);
    }
    assert(h * w == w * h) by (nonlinear_arith);
    assert(out@ =~= registers_of(rgba@, width as int, height as int));
    out
}

fn sixel_char(regs: &Vec<u8>, width: usize, height: usize, band: usize, reg: u8, x: usize) -> (out: char)
    requires
        regs@.len() == width * height,
        x < width,
        6 * band < height,
    ensures
        out == (63 + sixel_bits(regs@, width as int, height as int, band as int, reg as int, x as int, 6)) as char,
        (out != '?') == (sixel_bits(regs@, width as int, height as int, band as int, reg as int, x as int, 6) != 0),
{
    let total = regs.len();
    let mut bits: u8 = 0;
    let mut k: usize = 0;
    let mut w: u8 = 1;
    while k < 6
        invariant
            k <= 6,
            total == regs@.len(),
            regs@.len() == width * height,
            x < width,
            6 * band < height,
            w == weight(k as int),
            bits == sixel_bits(regs@, width as int, height as int, band as int, reg as int, x as int, k as int),
            bits < w,
        decreases 6 - k,
    {
        if k < height - 6 * band {
            let y = 6 * band + k;
            assert(y * width + x < height * width) by (nonlinear_arith)
                requires
                    y < height,
                    x < width,
            ;
            assert(height * width == width * height) by (nonlinear_arith);
            if regs[y * width + x] == reg {
                bits = bits + w;
            }
        }
        k += 1;
        w = 2 * w;
    }
    ((63 + bits) as char)
}

/// The register of pixel `x` in row `k` of `band`.
spec fn band_register(regs: Seq<u8>, width: int, band: int, k: int, x: int) -> u8 {
    regs[(6 * band + k) * width + x]
}

proof fn lemma_absent_register_has_no_sixels(
    regs: Seq<u8>,
    width: int,
    height: int,
    band: int,
    reg: int,
    x: int,
    k: int,
)
    requires
        k <= 6,
        forall|j: int|
            0 <= j < 6 && 6 * band + j < height ==> #[trigger] band_register(regs, width, band, j, x)
                != reg,
    ensures
        sixel_bits(regs, width, height, band, reg, x, k) == 0,
    decreases k,
{
    if k > 0 {
        lemma_absent_register_has_no_sixels(regs, width, height, band, reg, x, k - 1);
        if 6 * band + k - 1 < height {
            assert(band_register(regs, width, band, k - 1, x) != reg);
        }
    }
}

/// Which registers some pixel of a band takes.
fn band_registers(regs: &Vec<u8>, width: usize, height: usize, band: usize) -> (present: Vec<bool>)
    requires
        regs@.len() == width * height,
        6 * band < height,
        forall|i: int| 0 <= i < regs@.len() ==> #[trigger] regs@[i] < REGISTERS,
    ensures
        present@.len() == REGISTERS,
        forall|k: int, x: int|
            0 <= k < 6 && 6 * band + k < height && 0 <= x < width ==> present@[#[trigger] band_register(
                regs@,
                width as int,
                band as int,
                k,
                x,
            ) as int],
{
    let total = regs.len();
    let mut present: Vec<bool> = Vec::new();
    let mut r: usize = 0;
    while r < REGISTERS
        invariant
            r <= REGISTERS,
            present@.len() == r,
            forall|i: int| 0 <= i < r ==> !#[trigger] present@[i],
        decreases REGISTERS - r,
    {
        present.push(false);
        r += 1;
    }
    let mut k: usize = 0;
    while k < 6 && k < height - 6 * band
        invariant
            k <= 6,
            6 * band < height,
            total == regs@.len(),
            regs@.len() == width * height,
            forall|i: int| 0 <= i < regs@.len() ==> #[trigger] regs@[i] < REGISTERS,
            present@.len() == REGISTERS,
            forall|k2: int, x: int|
                0 <= k2 < k && 0 <= x < width ==> present@[#[trigger] band_register(
                    regs@,
                    width as int,
                    band as int,
                    k2,
                    x,
                ) as int],
        decreases 6 - k,
    {
        let y = 6 * band + k;
        let mut x: usize = 0;
        while x < width
            invariant
                k < 6,
                y == 6 * band + k,
                y < height,
                total == regs@.len(),
                regs@.len() == width * height,
                forall|i: int| 0 <= i < regs@.len() ==> #[trigger] regs@[i] < REGISTERS,
                present@.len() == REGISTERS,
                forall|k2: int, x2: int|
                    (0 <= k2 < k && 0 <= x2 < width || k2 == k && 0 <= x2 < x) ==> present@[
                        #[trigger] band_register(regs@, width as int, band as int, k2, x2) as int],
            decreases width - x,
        {
            assert(y * width + x < height * width) by (nonlinear_arith)
                requires
                    y < height,
                    x < width,
            ;
            assert(height * width == width * height) by (nonlinear_arith);
            let reg = regs[y * width + x];
            assert(band_register(regs@, width as int, band as int, k as int, x as int) == reg);
            let ghost before = present@;
            present.set(reg as usize, true);
            assert forall|k2: int, x2: int|
                (0 <= k2 < k && 0 <= x2 < width || k2 == k && 0 <= x2 <= x) implies present@[
                #[trigger] band_register(regs@, width as int, band as int, k2, x2) as int] by {
                let i = (6 * band + k2) * width + x2;
                assert(0 <= i < height * width) by (nonlinear_arith)
                    requires
                        i == (6 * band + k2) * width + x2,
                        0 <= k2 <= k,
                        6 * band + k < height,
                        0 <= x2 < width,
                ;
                assert(regs@[i] < REGISTERS);
                if !(k2 == k && x2 == x) {
                    assert(before[band_register(regs@, width as int, band as int, k2, x2) as int]);
                }
            }
            x += 1;
        }
        k += 1;
    }
    present
}

fn push_row(out: &mut String, regs: &Vec<u8>, width: usize, height: usize, band: usize, reg: u8)
    requires
        regs@.len() == width * height,
        6 * band < height,
    ensures
        final(out)@ == old(out)@ + if row_used(regs@, width as int, height as int, band as int, reg as int) {
            seq!['#'] + decimal(reg as nat) + sixel_row(regs@, width as int, height as int, band as int, reg as int)
                + seq!['$']
        } else {
            Seq::empty()
        },
{
    let ghost row = sixel_row(regs@, width as int, height as int, band as int, reg as int);
    let mut chars: Vec<char> = Vec::new();
    let mut used = false;
    let mut x: usize = 0;
    while x < width
        invariant
            x <= width,
            regs@.len() == width * height,
            6 * band < height,
            row == sixel_row(regs@, width as int, height as int, band as int, reg as int),
            chars@ == row.take(x as int),
            used == exists|j: int| 0 <= j < x && #[trigger] row[j] != '?',
        decreases width - x,
    {
        let c = sixel_char(regs, width, height, band, reg, x);
        assert(row[x as int] == c);
        if c != '?' {
            used = true;
        }
        chars.push(c);
        x += 1;
        assert(chars@ =~= row.take(x as int));
    }
    assert(row.take(x as int) == row);
    if used {
        out.push('#');
        push_decimal(out, reg as u64);
        let mut i: usize = 0;
        let ghost before = out@;
        while i < chars.len()
            invariant
                i <= chars@.len(),
                out@ == before + chars@.take(i as int),
            decreases chars@.len() - i,
        {
            out.push(chars[i]);
            i += 1;
            assert(chars@.take(i as int) == chars@.take(i - 1).push(chars@[i - 1]));
        }
        assert(chars@.take(i as int) == chars@);
        out.push('$');
    }
}

fn push_palette(out: &mut String)
    ensures
        final(out)@ == old(out)@ + palette_text(REGISTERS as int),
{
    let ghost start = out@;
    let mut reg: u64 = 0;
    while reg < REGISTERS as u64
        invariant
            reg <= REGISTERS,
            out@ == start + palette_text(reg as int),
        decreases REGISTERS - reg,
    {
        out.push('#');
        push_decimal(out, reg);
        push_str(out, ";2;");
        push_decimal(out, 20 * (reg / 36));
        out.push(';');
        push_decimal(out, 20 * ((reg / 6) % 6));
        out.push(';');
        push_decimal(out, 20 * (reg % 6));
        reg += 1;
        assert(out@ =~= start + palette_text(reg as int));
    }
}

/// Encodes an RGBA buffer as a sixel image.
pub fn encode(rgba: &Vec<u8>, width: u32, height: u32) -> (out: String)
    requires
        well_formed_rgba(width, height, rgba@),
    ensures
        out@ == sixel_image(rgba@, width, height),
{
    let regs = registers(rgba, width, height);
    assert(regs@.len() == (width as int) * (height as int));
    let w = width as usize;
    let h = height as usize;
    let mut out = String::new();
    push_str(&mut out, "\x1bPq\"1;1;");
    push_decimal(&mut out, width as u64);
    out.push(';');
    push_decimal(&mut out, height as u64);
    push_palette(&mut out);
    let ghost head = out@;
    let bands = h / 6 + if h % 6 > 0 {
        1
    } else {
        0
    };
    let mut band: usize = 0;
    while band < bands
        invariant
            band <= bands,
            bands == (h + 5) / 6,
            w == width,
            h == height,
            regs@ == registers_of(rgba@, w as int, h as int),
            regs@.len() == w * h,
            out@ == head + bands_text(regs@, w as int, h as int, band as int),
        decreases bands - band,
    {
        if band > 0 {
            out.push('-');
        }
        let ghost band_start = out@;
        let present = band_registers(&regs, w, h, band);
        let mut reg: usize = 0;
        while reg < REGISTERS
            invariant
                reg <= REGISTERS,
                band < bands,
                bands == (h + 5) / 6,
                regs@.len() == w * h,
                present@.len() == REGISTERS,
                forall|k: int, x: int|
                    0 <= k < 6 && 6 * band + k < h && 0 <= x < w ==> present@[#[trigger] band_register(
                        regs@,
                        w as int,
                        band as int,
                        k,
                        x,
                    ) as int],
                out@ == band_start + band_text(regs@, w as int, h as int, band as int, reg as int),
            decreases REGISTERS - reg,
        {
            if present[reg] {
                push_row(&mut out, &regs, w, h, band, reg as u8);
            } else {
                proof {
                    let row = sixel_row(regs@, w as int, h as int, band as int, reg as int);
                    assert forall|x: int| 0 <= x < w implies #[trigger] row[x] == '?' by {
                        lemma_absent_register_has_no_sixels(
                            regs@,
                            w as int,
                            h as int,
                            band as int,
                            reg as int,
                            x,
                            6,
                        );
                    }
                }
            }
            reg += 1;
        }
        band += 1;
        assert(out@ =~= head + bands_text(regs@, w as int, h as int, band as int));
    }
    push_str(&mut out, "\x1b\\");
    assert(out@ =~= sixel_image(rgba@, width, height));
    out
}

proof fn lemma_level_at_most_five(c: u8)
    ensures
        0 <= level(c) <= 5,
{
    let x = c as int;
    assert((10 * x + 255) / 510 <= 5) by (nonlinear_arith)
        requires
            0 <= x <= 255,
    ;
}

/// A pixel is drawn in a register that the palette defines as the pixel's
/// own colour: red, green and blue each at their nearest of six levels, in
/// percent and in that order.
pub proof fn lemma_register_shows_its_colour(colour: (u8, u8, u8))
    ensures
        0 <= register_of(colour) < REGISTERS,
        palette_entry(register_of(colour)) == seq!['#'] + decimal(register_of(colour) as nat)
            + ";2;"@ + decimal((20 * level(colour.0)) as nat) + seq![';'] + decimal(
            (20 * level(colour.1)) as nat,
        ) + seq![';'] + decimal((20 * level(colour.2)) as nat),
{
    lemma_level_at_most_five(colour.0);
    lemma_level_at_most_five(colour.1);
    lemma_level_at_most_five(colour.2);
    let r = level(colour.0);
    let g = level(colour.1);
    let b = level(colour.2);
    let reg = register_of(colour);
    assert(reg / 36 == r && (reg / 6) % 6 == g && reg % 6 == b) by (nonlinear_arith)
        requires
            reg == 36 * r + 6 * g + b,
            0 <= r <= 5,
            0 <= g <= 5,
            0 <= b <= 5,
    ;
}

} // verus!
