use vstd::prelude::*;

verus! {

/// ASCII codes of the characters that the format uses.
pub const DIGIT_ZERO: u8 = 48;
pub const DIGIT_TWO: u8 = 50;
pub const DIGIT_THREE: u8 = 51;
pub const DIGIT_FIVE: u8 = 53;
pub const LETTER_P: u8 = 80;
pub const SPACE: u8 = 32;
pub const LINE_END: u8 = 10;

/// A quantized color: one byte per channel.
#[derive(Copy, Clone, Debug, PartialEq, Eq, Structural)]
pub struct Rgb {
    pub r: u8,
    pub g: u8,
    pub b: u8,
}

/// The decimal digits of `n`, most significant first, without leading zeros.
pub open spec fn decimal(n: nat) -> Seq<u8>
    decreases n,
{
    if n < 10 {
        seq![(DIGIT_ZERO + n) as u8]
    } else {
        decimal(n / 10).push((DIGIT_ZERO + n % 10) as u8)
    }
}

/// `P3`, the size, and the largest channel value, each on a line of its own.
pub open spec fn header_text(width: nat, height: nat) -> Seq<u8> {
    seq![LETTER_P, DIGIT_THREE, LINE_END] + decimal(width) + seq![SPACE] + decimal(height) + seq![
        LINE_END,
        DIGIT_TWO,
        DIGIT_FIVE,
        DIGIT_FIVE,
        LINE_END,
    ]
}

/// One pixel: three channels separated by spaces, then a line end.
pub open spec fn color_text(c: Rgb) -> Seq<u8> {
    decimal(c.r as nat) + seq![SPACE] + decimal(c.g as nat) + seq![SPACE] + decimal(c.b as nat)
        + seq![LINE_END]
}

/// The lines of the pixels of `pixels`, in order.
pub open spec fn row_text(pixels: Seq<Rgb>) -> Seq<u8>
    decreases pixels.len(),
{
    if pixels.len() == 0 {
        Seq::empty()
    } else {
        row_text(pixels.drop_last()) + color_text(pixels.last())
    }
}

/// The whole image: the header, then the encoded rows from top to bottom.
pub open spec fn image_text(width: nat, height: nat, rows: Seq<Seq<u8>>) -> Seq<u8> {
    header_text(width, height) + rows.flatten()
}

/// The contents of each row buffer.
pub open spec fn row_views(rows: Seq<Vec<u8>>) -> Seq<Seq<u8>> {
    rows.map_values(|r: Vec<u8>| r@)
}

/// Appends the decimal digits of `n` to `out`.
pub fn push_decimal(out: &mut Vec<u8>, n: u64)
    ensures
        final(out)@ == old(out)@ + decimal(n as nat),
    decreases n,
{
    if n >= 10 {
        push_decimal(out, n / 10);
    }
    out.push(DIGIT_ZERO + (n % 10) as u8);
    assert(final(out)@ =~= old(out)@ + decimal(n as nat));
}

/// The header that opens an image of `width` by `height` pixels.
pub fn ppm_header(width: u64, height: u64) -> (r: Vec<u8>)
    ensures
        r@ == header_text(width as nat, height as nat),
{
    let mut out: Vec<u8> = Vec::new();
    out.push(LETTER_P);
    out.push(DIGIT_THREE);
    out.push(LINE_END);
    push_decimal(&mut out, width);
    out.push(SPACE);
    push_decimal(&mut out, height);
    out.push(LINE_END);
    out.push(DIGIT_TWO);
    out.push(DIGIT_FIVE);
    out.push(DIGIT_FIVE);
    out.push(LINE_END);
    assert(out@ =~= header_text(width as nat, height as nat));
    out
}

/// Appends the line of one pixel to `out`.
pub fn push_color_line(out: &mut Vec<u8>, c: Rgb)
    ensures
        final(out)@ == old(out)@ + color_text(c),
{
    push_decimal(out, c.r as u64);
    out.push(SPACE);
    push_decimal(out, c.g as u64);
    out.push(SPACE);
    push_decimal(out, c.b as u64);
    out.push(LINE_END);
    assert(final(out)@ =~= old(out)@ + color_text(c));
}

/// The line of one pixel.
pub fn color_line(c: Rgb) -> (r: Vec<u8>)
    ensures
        r@ == color_text(c),
{
    let mut out: Vec<u8> = Vec::new();
    push_color_line(&mut out, c);
    assert(out@ =~= color_text(c));
    out
}

/// The lines of a row of pixels, left to right.
pub fn encode_row(pixels: &Vec<Rgb>) -> (r: Vec<u8>)
    ensures
        r@ == row_text(pixels@),
{
    let mut out: Vec<u8> = Vec::new();
    let mut i: usize = 0;
    while i < pixels.len()
        invariant
            i <= pixels@.len(),
            out@ == row_text(pixels@.subrange(0, i as int)),
        decreases pixels@.len() - i,
    {
        proof {
            let next = pixels@.subrange(0, i as int + 1);
            assert(next.drop_last() =~= pixels@.subrange(0, i as int));
            assert(next.last() == pixels@[i as int]);
        }
        push_color_line(&mut out, pixels[i]);
        i = i + 1;
    }
    assert(pixels@.subrange(0, pixels@.len() as int) =~= pixels@);
    out
}

/// The image file's text: the header for `width` by `height`, then `rows` in order.
pub fn encode_image(width: u64, height: u64, rows: &Vec<Vec<u8>>) -> (r: Vec<u8>)
    ensures
        r@ == image_text(width as nat, height as nat, row_views(rows@)),
{
    let mut out = ppm_header(width, height);
    let ghost head = out@;
    let mut i: usize = 0;
    while i < rows.len()
        invariant
            i <= rows@.len(),
            head == header_text(width as nat, height as nat),
            out@ == head + row_views(rows@).subrange(0, i as int).flatten(),
        decreases rows@.len() - i,
    {
        let row = &rows[i];
        let mut k: usize = 0;
        let ghost start = out@;
        while k < row.len()
            invariant
                k <= row@.len(),
                out@ == start + row@.subrange(0, k as int),
            decreases row@.len() - k,
        {
            out.push(row[k]);
            k = k + 1;
            assert(out@ =~= start + row@.subrange(0, k as int));
        }
        proof {
            let done = row_views(rows@).subrange(0, i as int);
            assert(row_views(rows@).subrange(0, i as int + 1) =~= done.push(row@));
            done.lemma_flatten_push(row@);
            assert(row@.subrange(0, row@.len() as int) =~= row@);
            assert(out@ =~= head + row_views(rows@).subrange(0, i as int + 1).flatten());
        }
        i = i + 1;
    }
    assert(row_views(rows@).subrange(0, rows@.len() as int) =~= row_views(rows@));
    out
}

/// The number of line ends in `s`.
pub open spec fn line_count(s: Seq<u8>) -> nat
    decreases s.len(),
{
    if s.len() == 0 {
        0
    } else {
        line_count(s.drop_last()) + if s.last() == LINE_END {
            1nat
        } else {
            0nat
        }
    }
}

proof fn lemma_line_count_concat(a: Seq<u8>, b: Seq<u8>)
    ensures
        line_count(a + b) == line_count(a) + line_count(b),
    decreases b.len(),
{
    if b.len() == 0 {
        assert(a + b =~= a);
    } else {
        assert((a + b).drop_last() =~= a + b.drop_last());
        lemma_line_count_concat(a, b.drop_last());
    }
}

proof fn lemma_decimal_has_no_line_end(n: nat)
    ensures
        line_count(decimal(n)) == 0,
    decreases n,
{
    if n < 10 {
        assert(decimal(n).drop_last() =~= Seq::<u8>::empty());
        assert(decimal(n).last() == (DIGIT_ZERO + n) as u8);
        assert(line_count(Seq::<u8>::empty()) == 0);
    } else {
        lemma_decimal_has_no_line_end(n / 10);
        assert(decimal(n).drop_last() =~= decimal(n / 10));
        assert(decimal(n).last() == (DIGIT_ZERO + n % 10) as u8);
    }
}

proof fn lemma_color_text_is_one_line(c: Rgb)
    ensures
        line_count(color_text(c)) == 1,
{
    let sp = seq![SPACE];
    let nl = seq![LINE_END];
    assert(sp.drop_last() =~= Seq::<u8>::empty());
    assert(nl.drop_last() =~= Seq::<u8>::empty());
    assert(line_count(Seq::<u8>::empty()) == 0);
    assert(line_count(sp) == 0);
    assert(line_count(nl) == 1);
    lemma_decimal_has_no_line_end(c.r as nat);
    lemma_decimal_has_no_line_end(c.g as nat);
    lemma_decimal_has_no_line_end(c.b as nat);
    let r = decimal(c.r as nat);
    let g = decimal(c.g as nat);
    let b = decimal(c.b as nat);
    lemma_line_count_concat(r, sp);
    lemma_line_count_concat(r + sp, g);
    lemma_line_count_concat(r + sp + g, sp);
    lemma_line_count_concat(r + sp + g + sp, b);
    lemma_line_count_concat(r + sp + g + sp + b, nl);
    assert(color_text(c) == r + sp + g + sp + b + nl);
}

proof fn lemma_row_text_lines(pixels: Seq<Rgb>)
    ensures
        line_count(row_text(pixels)) == pixels.len(),
    decreases pixels.len(),
{
    if pixels.len() > 0 {
        lemma_row_text_lines(pixels.drop_last());
        lemma_color_text_is_one_line(pixels.last());
        lemma_line_count_concat(row_text(pixels.drop_last()), color_text(pixels.last()));
    }
}

proof fn lemma_row_text_concat(p: Seq<Rgb>, q: Seq<Rgb>)
    ensures
        row_text(p + q) == row_text(p) + row_text(q),
    decreases q.len(),
{
    if q.len() == 0 {
        assert(p + q =~= p);
        assert(row_text(p) + row_text(q) =~= row_text(p));
    } else {
        assert((p + q).drop_last() =~= p + q.drop_last());
        assert((p + q).last() == q.last());
        lemma_row_text_concat(p, q.drop_last());
        assert(row_text(p + q) =~= row_text(p) + row_text(q));
    }
}

/// The encoded rows of `pixels`, top to bottom.
pub open spec fn encoded_rows(pixels: Seq<Seq<Rgb>>) -> Seq<Seq<u8>> {
    pixels.map_values(|p: Seq<Rgb>| row_text(p))
}

proof fn lemma_rows_are_pixel_lines(pixels: Seq<Seq<Rgb>>, width: nat)
    requires
        forall|i: int| 0 <= i < pixels.len() ==> (#[trigger] pixels[i]).len() == width,
    ensures
        encoded_rows(pixels).flatten() == row_text(pixels.flatten()),
        pixels.flatten().len() == pixels.len() * width,
    decreases pixels.len(),
{
    if pixels.len() == 0 {
        assert(encoded_rows(pixels) =~= Seq::<Seq<u8>>::empty());
    } else {
        let rest = pixels.drop_first();
        assert(encoded_rows(pixels).drop_first() =~= encoded_rows(rest));
        assert(forall|i: int| 0 <= i < rest.len() ==> #[trigger] rest[i] == pixels[i + 1]);
        lemma_rows_are_pixel_lines(rest, width);
        lemma_row_text_concat(pixels.first(), rest.flatten());
        assert(pixels[0].len() == width);
        assert(pixels.len() * width == width + rest.len() * width) by (nonlinear_arith)
            requires
                rest.len() == pixels.len() - 1,
        ;
    }
}

/// An image of `height` rows of `width` pixels each is its header followed by
/// the lines of all its pixels, row by row and left to right: exactly
/// `width * height` lines.
pub proof fn lemma_image_is_header_then_pixel_lines(
    width: nat,
    height: nat,
    pixels: Seq<Seq<Rgb>>,
)
    requires
        pixels.len() == height,
        forall|i: int| 0 <= i < height ==> (#[trigger] pixels[i]).len() == width,
    ensures
        image_text(width, height, encoded_rows(pixels)) == header_text(width, height) + row_text(
            pixels.flatten(),
        ),
        pixels.flatten().len() == width * height,
        line_count(row_text(pixels.flatten())) == width * height,
{
    lemma_rows_are_pixel_lines(pixels, width);
    lemma_row_text_lines(pixels.flatten());
    assert(height * width == width * height) by (nonlinear_arith);
}

} // verus!
