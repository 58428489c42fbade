//! The Kitty graphics protocol: a PNG sent in base64 chunks, placed at the
//! cursor and scaled by the terminal to a box of cells.
use vstd::prelude::*;
use crate::text::{decimal, push_decimal, push_str};

verus! {

/// The character of a base64 digit (standard alphabet).
pub open spec fn base64_digit(v: int) -> char {
    if v < 26 {
        (65 + v) as char
    } else if v < 52 {
        (97 + (v - 26)) as char
    } else if v < 62 {
        (48 + (v - 52)) as char
    } else if v == 62 {
        '+'
    } else {
        '/'
    }
}

/// Standard base64 with `=` padding.
pub open spec fn base64(data: Seq<u8>) -> Seq<char>
    decreases data.len(),
{
    if data.len() == 0 {
        Seq::empty()
    } else if data.len() == 1 {
        let a = data[0] as int;
        seq![base64_digit(a / 4), base64_digit((a % 4) * 16), '=', '=']
    } else if data.len() == 2 {
        let a = data[0] as int;
        let b = data[1] as int;
        seq![
            base64_digit(a / 4),
            base64_digit((a % 4) * 16 + b / 16),
            base64_digit((b % 16) * 4),
            '=',
        ]
    } else {
        let a = data[0] as int;
        let b = data[1] as int;
        let c = data[2] as int;
        seq![
            base64_digit(a / 4),
            base64_digit((a % 4) * 16 + b / 16),
            base64_digit((b % 16) * 4 + c / 64),
            base64_digit(c % 64),
        ] + base64(data.skip(3))
    }
}

fn digit64(v: u8) -> (out: char)
    requires
        v < 64,
    ensures
        out == base64_digit(v as int),
{
    if v < 26 {
        (65 + v) as char
    } else if v < 52 {
        (97 + (v - 26)) as char
    } else if v < 62 {
        (48 + (v - 52)) as char
    } else if v == 62 {
        '+'
    } else {
        '/'
    }
}

/// Encodes bytes in standard base64.
pub fn encode_base64(data: &[u8]) -> (out: Vec<char>)
    ensures
        out@ == base64(data@),
{
    let n = data.len();
    let mut out: Vec<char> = Vec::new();
    let mut i: usize = 0;
    assert(data@.skip(0) == data@);
    while n - i >= 3
        invariant
            i <= n,
            n == data@.len(),
            base64(data@) == out@ + base64(data@.skip(i as int)),
        decreases n - i,
    {
        let a = data[i];
        let b = data[i + 1];
        let c = data[i + 2];
        let ghost rest = data@.skip(i as int);
        assert(rest[0] == a && rest[1] == b && rest[2] == c);
        assert(rest.skip(3) == data@.skip(i + 3));
        out.push(digit64(a / 4));
        out.push(digit64((a % 4) * 16 + b / 16));
        out.push(digit64((b % 16) * 4 + c / 64));
        out.push(digit64(c % 64));
        i += 3;
    }
    let ghost rest = data@.skip(i as int);
    if n - i == 1 {
        let a = data[i];
        assert(rest[0] == a);
        out.push(digit64(a / 4));
        out.push(digit64((a % 4) * 16));
        out.push('=');
        out.push('=');
    } else if n - i == 2 {
        let a = data[i];
        let b = data[i + 1];
        assert(rest[0] == a && rest[1] == b);
        out.push(digit64(a / 4));
        out.push(digit64((a % 4) * 16 + b / 16));
        out.push(digit64((b % 16) * 4));
        out.push('=');
    }
    assert(out@ =~= base64(data@));
    out
}

/// The most base64 characters one escape sequence carries.
pub const CHUNK: usize = 4096;

/// One escape sequence of a transmission: the control keys on the first,
/// `m=1` where more follow, then the chunk of base64.
pub open spec fn chunk_piece(chunk: Seq<char>, control: Seq<char>, first: bool, more: bool) -> Seq<
    char,
> {
    let head = if first {
        control + ",m="@
    } else {
        "m="@
    };
    "\x1b_G"@ + head + seq![if more { '1' } else { '0' }] + seq![';'] + chunk + "\x1b\\"@
}

/// The escape sequences that carry `data`, each at most [`CHUNK`]
/// characters; the first also carries `control`.
pub open spec fn chunked(data: Seq<char>, control: Seq<char>, first: bool) -> Seq<char>
    decreases data.len(),
{
    if data.len() > CHUNK {
        chunk_piece(data.take(CHUNK as int), control, first, true) + chunked(
            data.skip(CHUNK as int),
            control,
            false,
        )
    } else {
        chunk_piece(data, control, first, false)
    }
}

/// The control keys that transmit a PNG and place it over `cols` x `rows`
/// cells as picture `id`, without replies from the terminal.
pub open spec fn place_control(cols: u16, rows: u16, id: u32) -> Seq<char> {
    "a=T,f=100,q=2,i="@ + decimal(id as nat) + ",c="@ + decimal(cols as nat) + ",r="@ + decimal(
        rows as nat,
    )
}

/// The escape sequence that shows a PNG over `cols` x `rows` cells.
pub open spec fn kitty_place(png: Seq<u8>, cols: u16, rows: u16, id: u32) -> Seq<char> {
    chunked(base64(png), place_control(cols, rows, id), true)
}

/// The escape sequence that deletes every picture, with its data.
pub open spec fn kitty_delete_all() -> Seq<char> {
    "\x1b_Ga=d,d=A\x1b\\"@
}

/// Deletes every picture placed on the screen.
pub fn delete_all() -> (out: String)
    ensures
        out@ == kitty_delete_all(),
{
    let mut out = String::new();
    push_str(&mut out, "\x1b_Ga=d,d=A\x1b\\");
    out
}

/// Shows a PNG over `cols` x `rows` cells at the cursor, as picture `id`.
pub fn encode_png(png: &[u8], cols: u16, rows: u16, id: u32) -> (out: String)
    ensures
        out@ == kitty_place(png@, cols, rows, id),
{
    let data = encode_base64(png);
    let mut control = String::new();
    push_str(&mut control, "a=T,f=100,q=2,i=");
    push_decimal(&mut control, id as u64);
    push_str(&mut control, ",c=");
    push_decimal(&mut control, cols as u64);
    push_str(&mut control, ",r=");
    push_decimal(&mut control, rows as u64);
    assert(control@ =~= place_control(cols, rows, id));
    let mut out = String::new();
    let n = data.len();
    let mut start: usize = 0;
    assert(data@.skip(0) == data@);
    loop
        invariant
            start <= n,
            n == data@.len(),
            control@ == place_control(cols, rows, id),
            out@ + chunked(data@.skip(start as int), control@, start == 0) == kitty_place(
                png@,
                cols,
                rows,
                id,
            ),
        decreases n - start,
    {
        let ghost rest = data@.skip(start as int);
        let ghost before = out@;
        let more = n - start > CHUNK;
        let end = if more {
            start + CHUNK
        } else {
            n
        };
        push_chunk(&mut out, &data, start, end, control.as_str(), start == 0, more);
        if !more {
            assert(rest == data@.subrange(start as int, end as int));
            return out;
        }
        assert(rest.take(CHUNK as int) == data@.subrange(start as int, end as int));
        assert(rest.skip(CHUNK as int) == data@.skip(end as int));
        assert(out@ + chunked(data@.skip(end as int), control@, false) =~= before + chunked(
            rest,
            control@,
            start == 0,
        ));
        start = end;
    }
}

fn push_chunk(
    out: &mut String,
    data: &Vec<char>,
    start: usize,
    end: usize,
    control: &str,
    first: bool,
    more: bool,
)
    requires
        start <= end <= data@.len(),
    ensures
        final(out)@ == old(out)@ + chunk_piece(
            data@.subrange(start as int, end as int),
            control@,
            first,
            more,
        ),
{
    let ghost before = out@;
    push_str(out, "\x1b_G");
    if first {
        push_str(out, control);
        push_str(out, ",m=");
    } else {
        push_str(out, "m=");
    }
    out.push(if more { '1' } else { '0' });
    out.push(';');
    let ghost prefix = out@;
    let mut i = start;
    while i < end
        invariant
            start <= i <= end <= data@.len(),
            out@ == prefix + data@.subrange(start as int, i as int),
        decreases end - i,
    {
        out.push(data[i]);
        i += 1;
        assert(data@.subrange(start as int, i as int) == data@.subrange(start as int, i - 1).push(
            data@[i - 1],
        ));
    }
    push_str(out, "\x1b\\");
    assert(out@ =~= before + chunk_piece(
        data@.subrange(start as int, end as int),
        control@,
        first,
        more,
    ));
}

} // verus!
