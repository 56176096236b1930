//! The icon file: several sizes of one picture, each a device-independent bitmap.
use crate::bytes::{push_bytes, push_u16, push_u32, put16, put32};
use vstd::prelude::*;

verus! {

/// The bytes of a row of the mask: one bit to a pixel, whole words.
pub open spec fn mask_stride(size: u32) -> nat {
    ((size as int + 31) / 32 * 4) as nat
}

/// The header of a bitmap in an icon. The height counts twice, for picture and mask.
pub open spec fn dib_header(size: u32) -> Seq<u8> {
    put32(40) + put32(size) + put32((size * 2) as u32) + put16(1) + put16(32) + put32(0) + put32(0)
        + put32(0) + put32(0) + put32(0) + put32(0)
}

/// Byte `k` of the picture: rows from the bottom up, blue, green, red and opacity.
pub open spec fn dib_byte(px: Seq<u8>, size: u32, k: int) -> u8 {
    let row = k / (4 * size);
    let col = k % (4 * size);
    let at = (size - 1 - row) * (4 * size) + col;
    if k % 4 == 0 {
        px[at + 2]
    } else if k % 4 == 2 {
        px[at - 2]
    } else {
        px[at]
    }
}

/// One size of the icon: the header, the picture, and a mask that hides nothing, as opacity
/// is in the picture.
pub open spec fn dib_spec(px: Seq<u8>, size: u32) -> Seq<u8> {
    dib_header(size) + Seq::new((4 * size * size) as nat, |k: int| dib_byte(px, size, k)) + Seq::new(
        mask_stride(size) * size as nat,
        |k: int| 0u8,
    )
}

proof fn lemma_dib_place(size: int, row: int, col: int)
    requires
        size > 0,
        0 <= row < size,
        0 <= col < 4 * size,
    ensures
        (row * (4 * size) + col) / (4 * size) == row,
        (row * (4 * size) + col) % (4 * size) == col,
        0 <= (size - 1 - row) * (4 * size) + col < 4 * size * size,
{
    let w = 4 * size;
    vstd::arithmetic::div_mod::lemma_fundamental_div_mod_converse(
        row * w + col,
        w,
        row,
        col,
    );
    assert(0 <= (size - 1 - row) * w + col < w * size) by (nonlinear_arith)
        requires
            0 <= row < size,
            0 <= col < w,
            w == 4 * size,
    ;
    assert(w * size == 4 * size * size) by (nonlinear_arith)
        requires
            w == 4 * size,
    ;
}

fn push_row(d: &mut Vec<u8>, px: &[u8], size: u32, row: u32, Ghost(head): Ghost<Seq<u8>>)
    requires
        0 < size <= 0x7FFF,
        row < size,
        px@.len() == 4 * size * size,
        old(d)@ == head + Seq::new((row * (4 * size)) as nat, |k: int| dib_byte(px@, size, k)),
    ensures
        final(d)@ == head + Seq::new(
            ((row + 1) * (4 * size)) as nat,
            |k: int| dib_byte(px@, size, k),
        ),
{
    let ghost w = 4 * size as int;
    let y: u32 = size - 1 - row;
    let mut x: u32 = 0;
    proof {
        assert(row * (4 * size) + 4 * x == row * (4 * size));
    }
    while x < size
        invariant
            0 < size <= 0x7FFF,
            row < size,
            y == size - 1 - row,
            x <= size,
            w == 4 * size,
            px@.len() == 4 * size * size,
            d@ == head + Seq::new((row * w + 4 * x) as nat, |k: int| dib_byte(px@, size, k)),
        decreases size - x,
    {
        let ghost k0 = row * w + 4 * x;
        let ghost was = d@;
        proof {
            assert(0 <= row * w) by (nonlinear_arith)
                requires
                    row >= 0,
                    w >= 0,
            ;
            lemma_dib_place(size as int, row as int, 4 * x as int);
            lemma_dib_place(size as int, row as int, 4 * x + 1);
            lemma_dib_place(size as int, row as int, 4 * x + 2);
            lemma_dib_place(size as int, row as int, 4 * x + 3);
            assert((y * size + x) * 4 == y * w + 4 * x) by (nonlinear_arith)
                requires
                    w == 4 * size,
            ;
            assert(row * w == 4 * (row * size)) by (nonlinear_arith)
                requires
                    w == 4 * size,
            ;
            let rs = row * size;
            assert(k0 == 4 * (rs + x));
            assert(k0 % 4 == 0);
            assert(y * size + x < 0x4000_0000) by (nonlinear_arith)
                requires
                    y < size,
                    x < size,
                    size <= 0x7FFF,
            ;
            assert(y * size <= 0x4000_0000) by (nonlinear_arith)
                requires
                    y < size,
                    size <= 0x7FFF,
            ;
        }
        let i: usize = ((y * size + x) * 4) as usize;
        d.push(px[i + 2]);
        d.push(px[i + 1]);
        d.push(px[i]);
        d.push(px[i + 3]);
        proof {
            let f = |k: int| dib_byte(px@, size, k);
            let a = Seq::new(k0 as nat, f);
            let b = Seq::new((k0 + 4) as nat, f);
            assert(b[k0] == px@[i + 2]);
            assert(b[k0 + 1] == px@[i + 1]);
            assert(b[k0 + 2] == px@[i as int]);
            assert(b[k0 + 3] == px@[i + 3]);
            assert(b =~= a.push(b[k0]).push(b[k0 + 1]).push(b[k0 + 2]).push(b[k0 + 3]));
            assert(d@ =~= head + b);
            assert(row * w + 4 * (x + 1) == k0 + 4);
        }
        x = x + 1;
    }
    proof {
        assert(row * w + 4 * size == (row + 1) * w) by (nonlinear_arith)
            requires
                w == 4 * size,
        ;
    }
}

/// One size of the icon from its pixels, red first, from the top down.
pub fn dib_for(px: &[u8], size: u32) -> (r: Vec<u8>)
    requires
        size <= 0x7FFF,
        px@.len() == 4 * size * size,
    ensures
        r@ == dib_spec(px@, size),
{
    let mut d: Vec<u8> = Vec::new();
    push_u32(&mut d, 40);
    push_u32(&mut d, size);
    push_u32(&mut d, size * 2);
    push_u16(&mut d, 1);
    push_u16(&mut d, 32);
    push_u32(&mut d, 0);
    push_u32(&mut d, 0);
    push_u32(&mut d, 0);
    push_u32(&mut d, 0);
    push_u32(&mut d, 0);
    push_u32(&mut d, 0);
    assert(d@ =~= dib_header(size));
    let ghost head = d@;
    let mut row: u32 = 0;
    proof {
        assert(0 * (4 * size) == 0);
        assert(head + Seq::new(0, |k: int| dib_byte(px@, size, k)) =~= head);
    }
    while row < size
        invariant
            size <= 0x7FFF,
            row <= size,
            px@.len() == 4 * size * size,
            d@ == head + Seq::new((row * (4 * size)) as nat, |k: int| dib_byte(px@, size, k)),
        decreases size - row,
    {
        push_row(&mut d, px, size, row, Ghost(head));
        row = row + 1;
    }
    proof {
        assert(size * (4 * size) == 4 * size * size) by (nonlinear_arith);
    }
    let ghost body = d@;
    let stride: usize = ((size + 31) / 32 * 4) as usize;
    assert(stride * size <= 0x0FFF_FFFF) by (nonlinear_arith)
        requires
            stride <= 0x1000,
            size <= 0x7FFF,
    ;
    let n: usize = stride * (size as usize);
    let mut k: usize = 0;
    assert(body + Seq::new(0, |k: int| 0u8) =~= body);
    while k < n
        invariant
            k <= n,
            d@ == body + Seq::new(k as nat, |k: int| 0u8),
        decreases n - k,
    {
        d.push(0);
        assert(Seq::new((k + 1) as nat, |k: int| 0u8) =~= Seq::new(k as nat, |k: int| 0u8).push(
            0u8,
        ));
        k = k + 1;
    }
    d
}

/// A directory entry: the size in one byte, where 0 means 256, and where the image stands.
pub open spec fn ico_entry(size: u32, len: int, offset: int) -> Seq<u8> {
    let b = if size >= 256 {
        0u8
    } else {
        size as u8
    };
    seq![b, b, 0u8, 0u8] + put16(1) + put16(32) + put32(len as u32) + put32(offset as u32)
}

/// How many bytes the first `n` images take.
pub open spec fn image_bytes(images: Seq<(u32, Seq<u8>)>, n: nat) -> nat
    decreases n,
{
    if n == 0 {
        0
    } else {
        image_bytes(images, (n - 1) as nat) + images[n - 1].1.len()
    }
}

/// The first `n` directory entries of an icon with all `images`.
pub open spec fn ico_entries(images: Seq<(u32, Seq<u8>)>, n: nat) -> Seq<u8>
    decreases n,
{
    if n == 0 {
        Seq::empty()
    } else {
        ico_entries(images, (n - 1) as nat) + ico_entry(
            images[n - 1].0,
            images[n - 1].1.len() as int,
            (6 + 16 * images.len() + image_bytes(images, (n - 1) as nat)) as int,
        )
    }
}

/// The first `n` images one after the other.
pub open spec fn ico_images(images: Seq<(u32, Seq<u8>)>, n: nat) -> Seq<u8>
    decreases n,
{
    if n == 0 {
        Seq::empty()
    } else {
        ico_images(images, (n - 1) as nat) + images[n - 1].1
    }
}

pub open spec fn image_views(v: Seq<(u32, Vec<u8>)>) -> Seq<(u32, Seq<u8>)> {
    Seq::new(v.len(), |i: int| (v[i].0, v[i].1@))
}

/// An icon file of several images: header, directory, images.
pub fn build_ico(images: &Vec<(u32, Vec<u8>)>) -> (r: Vec<u8>)
    requires
        images@.len() <= u16::MAX,
        6 + 16 * images@.len() + image_bytes(image_views(images@), images@.len()) <= u32::MAX,
    ensures
        r@ == put16(0) + put16(1) + put16(images@.len() as u16) + ico_entries(
            image_views(images@),
            images@.len(),
        ) + ico_images(image_views(images@), images@.len()),
{
    let ghost v = image_views(images@);
    let n: usize = images.len();
    let mut out: Vec<u8> = Vec::new();
    push_u16(&mut out, 0);
    push_u16(&mut out, 1);
    push_u16(&mut out, n as u16);
    let ghost head = put16(0) + put16(1) + put16(n as u16);
    assert(out@ =~= head);
    let mut offset: u32 = 6 + 16 * (n as u32);
    let mut i: usize = 0;
    assert(out@ =~= head + ico_entries(v, 0));
    while i < n
        invariant
            n == images.len(),
            n <= u16::MAX,
            i <= n,
            v == image_views(images@),
            6 + 16 * n + image_bytes(v, n as nat) <= u32::MAX,
            offset == 6 + 16 * n + image_bytes(v, i as nat),
            out@ == head + ico_entries(v, i as nat),
        decreases n - i,
    {
        proof {
            lemma_image_bytes(v, (i + 1) as nat, n as nat);
            assert(v[i as int] == (images@[i as int].0, images@[i as int].1@));
        }
        let size: u32 = images[i].0;
        let len: usize = images[i].1.len();
        let b: u8 = if size >= 256 {
            0
        } else {
            size as u8
        };
        let ghost was = out@;
        out.push(b);
        out.push(b);
        out.push(0);
        out.push(0);
        assert(out@ =~= was + seq![b, b, 0u8, 0u8]);
        push_u16(&mut out, 1);
        push_u16(&mut out, 32);
        push_u32(&mut out, len as u32);
        push_u32(&mut out, offset);
        assert(out@ =~= head + ico_entries(v, (i + 1) as nat));
        offset = offset + len as u32;
        i = i + 1;
    }
    let ghost dir = out@;
    let mut k: usize = 0;
    assert(dir + ico_images(v, 0) =~= dir);
    while k < n
        invariant
            n == images.len(),
            k <= n,
            v == image_views(images@),
            out@ == dir + ico_images(v, k as nat),
        decreases n - k,
    {
        push_bytes(&mut out, &images[k].1);
        assert(out@ =~= dir + ico_images(v, (k + 1) as nat));
        k = k + 1;
    }
    out
}

proof fn lemma_image_bytes(images: Seq<(u32, Seq<u8>)>, a: nat, b: nat)
    requires
        a <= b,
    ensures
        image_bytes(images, a) <= image_bytes(images, b),
    decreases b - a,
{
    if a < b {
        lemma_image_bytes(images, a, (b - 1) as nat);
    }
}

/// Every image of an icon stands where its directory entry says.
pub proof fn law_images_stand_where_the_directory_says(images: Seq<(u32, Seq<u8>)>, n: nat, i: int)
    requires
        n <= images.len(),
        0 <= i < n,
    ensures
        ico_images(images, n).len() == image_bytes(images, n),
        image_bytes(images, i as nat) + images[i].1.len() <= image_bytes(images, n),
        ico_images(images, n).subrange(
            image_bytes(images, i as nat) as int,
            (image_bytes(images, i as nat) + images[i].1.len()) as int,
        ) == images[i].1,
    decreases n,
{
    lemma_images_len(images, n);
    lemma_images_len(images, (n - 1) as nat);
    let all = ico_images(images, n);
    let at = image_bytes(images, i as nat) as int;
    if i == n - 1 {
        assert(all.subrange(at, at + images[i].1.len()) =~= images[i].1);
    } else {
        law_images_stand_where_the_directory_says(images, (n - 1) as nat, i);
        let short = ico_images(images, (n - 1) as nat);
        assert(all.subrange(at, at + images[i].1.len()) =~= short.subrange(
            at,
            at + images[i].1.len(),
        ));
    }
}

proof fn lemma_images_len(images: Seq<(u32, Seq<u8>)>, n: nat)
    ensures
        ico_images(images, n).len() == image_bytes(images, n),
    decreases n,
{
    if n > 0 {
        lemma_images_len(images, (n - 1) as nat);
    }
}

} // verus!
