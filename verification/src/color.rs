//! The colors that paths are drawn in: no two paths share one.
use vstd::prelude::*;

verus! {

/// How many opaque colors there are: eight bits each of red, green and blue.
pub const OPAQUE_COLORS: u64 = 0x1000000;

/// Odd, and far from a simple fraction of `OPAQUE_COLORS`, so that its
/// multiples go through all opaque colors and neighbours look different.
pub const STRIDE: u64 = 0x9e3779;

/// The hexadecimal digit for `d`, a number below sixteen.
pub open spec fn hex_digit(d: nat) -> char {
    if d < 10 {
        (48 + d) as char
    } else {
        (87 + d) as char
    }
}

/// The last `width` hexadecimal digits of `n`.
pub open spec fn hex(n: nat, width: nat) -> Seq<char>
    decreases width,
{
    if width == 0 {
        seq![]
    } else {
        hex(n / 16, (width - 1) as nat).push(hex_digit(n % 16))
    }
}

/// The number that comes `n`-th, counted from zero, if the seven numbers that
/// `mixed` takes to the first seven colors are left out.
pub open spec fn skipping(n: nat) -> nat {
    let n = if n >= 0x14c37a { n + 1 } else { n };
    let n = if n >= 0x3329bd { n + 1 } else { n };
    let n = if n >= 0x3cde64 { n + 1 } else { n };
    let n = if n >= 0x494e2c { n + 1 } else { n };
    let n = if n >= 0x5cad03 { n + 1 } else { n };
    let n = if n >= 0x7e26b2 { n + 1 } else { n };
    if n >= 0xf8d128 { n + 1 } else { n }
}

/// The `n`-th multiple of `STRIDE`, as an opaque color.
pub open spec fn mixed(n: nat) -> nat {
    (n * STRIDE as nat) % OPAQUE_COLORS as nat
}

/// Red, green and blue of the `r`-th of the opaque colors. Seven colors come
/// first; the others come after them, mixed.
#[verifier::opaque]
pub open spec fn rgb(r: nat) -> nat {
    if r == 0 {
        0x3a73e8
    } else if r == 1 {
        0xcc5555
    } else if r == 2 {
        0x449944
    } else if r == 3 {
        0xcc8822
    } else if r == 4 {
        0x9966cc
    } else if r == 5 {
        0x1b9aaa
    } else if r == 6 {
        0xd36b6b
    } else {
        mixed(skipping((r - 7) as nat))
    }
}

/// The opacity in the `q`-th round through the opaque colors. In the first
/// round none is given: all of its colors are opaque.
pub open spec fn opacity(q: nat) -> Seq<char> {
    if q % 256 == 0 {
        seq![]
    } else {
        hex((255 - q % 256) as nat, 2)
    }
}

/// The color of the `i`-th path, as DOT has it.
pub open spec fn path_color(i: nat) -> Seq<char> {
    if i == 0 {
        "#3a73e8"@
    } else if i == 1 {
        "#cc5555"@
    } else if i == 2 {
        "#449944"@
    } else if i == 3 {
        "#cc8822"@
    } else if i == 4 {
        "#9966cc"@
    } else if i == 5 {
        "#1b9aaa"@
    } else if i == 6 {
        "#d36b6b"@
    } else {
        seq!['#'] + hex(rgb(i % OPAQUE_COLORS as nat), 6) + opacity(i / OPAQUE_COLORS as nat)
    }
}

fn push_hex(out: &mut String, n: u64, width: usize)
    ensures
        final(out)@ == old(out)@ + hex(n as nat, width as nat),
    decreases width,
{
    let ghost before = out@;
    if width > 0 {
        push_hex(out, n / 16, width - 1);
        let d: u8 = (n % 16) as u8;
        if d < 10 {
            out.push((48 + d) as char);
        } else {
            out.push((87 + d) as char);
        }
    }
    assert(out@ =~= before + hex(n as nat, width as nat));
}

fn rgb_of(r: u64) -> (c: u64)
    requires
        r < OPAQUE_COLORS,
    ensures
        c == rgb(r as nat),
{
    reveal(rgb);
    if r == 0 {
        0x3a73e8
    } else if r == 1 {
        0xcc5555
    } else if r == 2 {
        0x449944
    } else if r == 3 {
        0xcc8822
    } else if r == 4 {
        0x9966cc
    } else if r == 5 {
        0x1b9aaa
    } else if r == 6 {
        0xd36b6b
    } else {
        let n: u64 = r - 7;
        let n: u64 = if n >= 0x14c37a { n + 1 } else { n };
        let n: u64 = if n >= 0x3329bd { n + 1 } else { n };
        let n: u64 = if n >= 0x3cde64 { n + 1 } else { n };
        let n: u64 = if n >= 0x494e2c { n + 1 } else { n };
        let n: u64 = if n >= 0x5cad03 { n + 1 } else { n };
        let n: u64 = if n >= 0x7e26b2 { n + 1 } else { n };
        let n: u64 = if n >= 0xf8d128 { n + 1 } else { n };
        (n * STRIDE) % OPAQUE_COLORS
    }
}

/// Appends the color of the `i`-th path.
pub fn push_color(out: &mut String, i: usize)
    ensures
        final(out)@ == old(out)@ + path_color(i as nat),
{
    let ghost before = out@;
    if i == 0 {
        out.push_str("#3a73e8");
    } else if i == 1 {
        out.push_str("#cc5555");
    } else if i == 2 {
        out.push_str("#449944");
    } else if i == 3 {
        out.push_str("#cc8822");
    } else if i == 4 {
        out.push_str("#9966cc");
    } else if i == 5 {
        out.push_str("#1b9aaa");
    } else if i == 6 {
        out.push_str("#d36b6b");
    } else {
        let n: u64 = i as u64;
        out.push('#');
        push_hex(out, rgb_of(n % OPAQUE_COLORS), 6);
        let round: u64 = (n / OPAQUE_COLORS) % 256;
        if round != 0 {
            push_hex(out, 255 - round, 2);
        }
        assert(out@ =~= before + path_color(i as nat));
    }
}

/// Whether `n` has at most `width` hexadecimal digits.
spec fn fits(n: nat, width: nat) -> bool
    decreases width,
{
    if width == 0 {
        n == 0
    } else {
        fits(n / 16, (width - 1) as nat)
    }
}

proof fn lemma_hex_len(n: nat, width: nat)
    ensures
        hex(n, width).len() == width,
    decreases width,
{
    if width > 0 {
        lemma_hex_len(n / 16, (width - 1) as nat);
    }
}

proof fn lemma_hex_differs(a: nat, b: nat, width: nat)
    requires
        fits(a, width),
        fits(b, width),
        hex(a, width) == hex(b, width),
    ensures
        a == b,
    decreases width,
{
    if width > 0 {
        let w = (width - 1) as nat;
        assert(hex(a, width).last() == hex_digit(a % 16));
        assert(hex(b, width).last() == hex_digit(b % 16));
        assert(hex_digit(a % 16) as int == 48 + a % 16 || hex_digit(a % 16) as int == 87 + a % 16);
        assert(hex_digit(b % 16) as int == 48 + b % 16 || hex_digit(b % 16) as int == 87 + b % 16);
        assert(hex(a, width).drop_last() =~= hex(a / 16, w));
        assert(hex(b, width).drop_last() =~= hex(b / 16, w));
        lemma_hex_differs(a / 16, b / 16, w);
    }
}

proof fn lemma_mixed_differ(a: nat, b: nat)
    requires
        a < OPAQUE_COLORS,
        b < OPAQUE_COLORS,
        mixed(a) == mixed(b),
    ensures
        a == b,
{
    // The inverse of the stride brings `a - b` back from its multiple.
    let rounds = (a * STRIDE) / OPAQUE_COLORS as int - (b * STRIDE) / OPAQUE_COLORS as int;
    assert((a - b) * 0x9e3779 == rounds * 0x1000000);
    assert(0x9e3779 * 0xb382c9 == 1 + 7270814 * 0x1000000);
    assert(a - b == (rounds * 0xb382c9 - (a - b) * 7270814) * 0x1000000);
}

proof fn lemma_skipping(a: nat, b: nat)
    requires
        a < OPAQUE_COLORS - 7,
        b < OPAQUE_COLORS - 7,
    ensures
        skipping(a) < OPAQUE_COLORS,
        skipping(a) == skipping(b) ==> a == b,
        skipping(a) != 0x14c37a,
        skipping(a) != 0x3329bd,
        skipping(a) != 0x3cde64,
        skipping(a) != 0x494e2c,
        skipping(a) != 0x5cad03,
        skipping(a) != 0x7e26b2,
        skipping(a) != 0xf8d128,
{
}

proof fn lemma_sources()
    ensures
        mixed(0xf8d128) == 0x3a73e8,
        mixed(0x3329bd) == 0xcc5555,
        mixed(0x3cde64) == 0x449944,
        mixed(0x7e26b2) == 0xcc8822,
        mixed(0x494e2c) == 0x9966cc,
        mixed(0x14c37a) == 0x1b9aaa,
        mixed(0x5cad03) == 0xd36b6b,
{
    assert(0xf8d128 * 0x9e3779 == 10077953 * 0x1000000 + 0x3a73e8);
    assert(0x3329bd * 0x9e3779 == 2072280 * 0x1000000 + 0xcc5555);
    assert(0x3cde64 * 0x9e3779 == 2465394 * 0x1000000 + 0x449944);
    assert(0x7e26b2 * 0x9e3779 == 5109559 * 0x1000000 + 0xcc8822);
    assert(0x494e2c * 0x9e3779 == 2969121 * 0x1000000 + 0x9966cc);
    assert(0x14c37a * 0x9e3779 == 840997 * 0x1000000 + 0x1b9aaa);
    assert(0x5cad03 * 0x9e3779 == 3753692 * 0x1000000 + 0xd36b6b);
}

proof fn lemma_mixed_not_first(n: nat, c: nat, source: nat)
    requires
        n < OPAQUE_COLORS - 7,
        source < OPAQUE_COLORS,
        mixed(source) == c,
        skipping(n) != source,
    ensures
        mixed(skipping(n)) != c,
{
    lemma_skipping(n, n);
    if mixed(skipping(n)) == c {
        lemma_mixed_differ(skipping(n), source);
    }
}

proof fn lemma_others_not_first(r: nat, k: nat)
    requires
        7 <= r < OPAQUE_COLORS,
        k < 7,
    ensures
        rgb(r) != rgb(k),
{
    reveal(rgb);
    let n = (r - 7) as nat;
    lemma_skipping(n, n);
    lemma_sources();
    lemma_mixed_not_first(n, 0x3a73e8, 0xf8d128);
    lemma_mixed_not_first(n, 0xcc5555, 0x3329bd);
    lemma_mixed_not_first(n, 0x449944, 0x3cde64);
    lemma_mixed_not_first(n, 0xcc8822, 0x7e26b2);
    lemma_mixed_not_first(n, 0x9966cc, 0x494e2c);
    lemma_mixed_not_first(n, 0x1b9aaa, 0x14c37a);
    lemma_mixed_not_first(n, 0xd36b6b, 0x5cad03);
}

proof fn lemma_rgb_differs(a: nat, b: nat)
    requires
        a < OPAQUE_COLORS,
        b < OPAQUE_COLORS,
        rgb(a) == rgb(b),
    ensures
        a == b,
{
    if a >= 7 && b >= 7 {
        reveal(rgb);
        lemma_skipping((a - 7) as nat, (b - 7) as nat);
        lemma_mixed_differ(skipping((a - 7) as nat), skipping((b - 7) as nat));
    } else if a >= 7 {
        lemma_others_not_first(a, b);
    } else if b >= 7 {
        lemma_others_not_first(b, a);
    } else {
        reveal(rgb);
    }
}

proof fn lemma_hex_of_six(n: nat)
    requires
        n < OPAQUE_COLORS,
    ensures
        hex(n, 6) == seq![
            hex_digit(n / 0x100000),
            hex_digit(n / 0x10000 % 16),
            hex_digit(n / 0x1000 % 16),
            hex_digit(n / 0x100 % 16),
            hex_digit(n / 0x10 % 16),
            hex_digit(n % 16),
        ],
{
    reveal_with_fuel(hex, 7);
    assert(n / 16 / 16 == n / 0x100);
    assert(n / 0x100 / 16 == n / 0x1000);
    assert(n / 0x1000 / 16 == n / 0x10000);
    assert(n / 0x10000 / 16 == n / 0x100000);
    assert(n / 0x100000 < 16);
}

proof fn lemma_first_colors(i: nat)
    requires
        i < 7,
    ensures
        path_color(i) == seq!['#'] + hex(rgb(i), 6),
{
    reveal(rgb);
    reveal_strlit("#3a73e8");
    lemma_hex_of_six(0x3a73e8);
    reveal_strlit("#cc5555");
    lemma_hex_of_six(0xcc5555);
    reveal_strlit("#449944");
    lemma_hex_of_six(0x449944);
    reveal_strlit("#cc8822");
    lemma_hex_of_six(0xcc8822);
    reveal_strlit("#9966cc");
    lemma_hex_of_six(0x9966cc);
    reveal_strlit("#1b9aaa");
    lemma_hex_of_six(0x1b9aaa);
    reveal_strlit("#d36b6b");
    lemma_hex_of_six(0xd36b6b);
    assert(path_color(i) =~= seq!['#'] + hex(rgb(i), 6));
}

proof fn lemma_rgb_fits(r: nat)
    ensures
        fits(rgb(r), 6),
{
    reveal(rgb);
    reveal_with_fuel(fits, 7);
    assert(rgb(r) < 0x1000000);
}

proof fn lemma_parts(i: nat)
    ensures
        path_color(i) == seq!['#'] + hex(rgb(i % OPAQUE_COLORS as nat), 6) + opacity(
            i / OPAQUE_COLORS as nat,
        ),
{
    if i < 7 {
        lemma_first_colors(i);
        assert(path_color(i) =~= seq!['#'] + hex(rgb(i), 6) + opacity(0));
    }
}

/// No two paths are drawn in the same color, as long as there are no more
/// paths than colors: eight bits each of red, green, blue and opacity.
pub proof fn law_paths_differ_in_color(i: nat, j: nat)
    requires
        i < 0x1_0000_0000,
        j < 0x1_0000_0000,
        i != j,
    ensures
        path_color(i) != path_color(j),
{
    let (a, b) = (i % OPAQUE_COLORS as nat, j % OPAQUE_COLORS as nat);
    let (p, q) = (i / OPAQUE_COLORS as nat, j / OPAQUE_COLORS as nat);
    if path_color(i) == path_color(j) {
        lemma_parts(i);
        lemma_parts(j);
        lemma_hex_len(rgb(a), 6);
        lemma_hex_len(rgb(b), 6);
        assert(path_color(i).subrange(1, 7) =~= hex(rgb(a), 6));
        assert(path_color(j).subrange(1, 7) =~= hex(rgb(b), 6));
        lemma_rgb_fits(a);
        lemma_rgb_fits(b);
        lemma_hex_differs(rgb(a), rgb(b), 6);
        lemma_rgb_differs(a, b);
        assert(path_color(i).skip(7) =~= opacity(p));
        assert(path_color(j).skip(7) =~= opacity(q));
        lemma_hex_len((255 - p) as nat, 2);
        lemma_hex_len((255 - q) as nat, 2);
        if p != 0 && q != 0 {
            assert(fits((255 - p) as nat, 2) && fits((255 - q) as nat, 2)) by {
                reveal_with_fuel(fits, 3);
            }
            lemma_hex_differs((255 - p) as nat, (255 - q) as nat, 2);
        }
    }
}

/// The first seven paths are drawn in seven given colors.
pub proof fn law_first_colors(i: nat)
    requires
        i < 7,
    ensures
        path_color(i) == seq![
            "#3a73e8"@,
            "#cc5555"@,
            "#449944"@,
            "#cc8822"@,
            "#9966cc"@,
            "#1b9aaa"@,
            "#d36b6b"@,
        ][i as int],
{
}

/// Whether `c` is one of the characters that colors are written with.
pub open spec fn is_color_char(c: char) -> bool {
    c == '#' || '0' <= c <= '9' || 'a' <= c <= 'f'
}

proof fn lemma_hex_chars(n: nat, width: nat)
    ensures
        forall|i: int| 0 <= i < width ==> is_color_char(#[trigger] hex(n, width)[i]),
    decreases width,
{
    lemma_hex_len(n, width);
    if width > 0 {
        let w = (width - 1) as nat;
        lemma_hex_chars(n / 16, w);
        lemma_hex_len(n / 16, w);
        assert forall|i: int| 0 <= i < width implies is_color_char(#[trigger] hex(n, width)[i]) by {
            if i < w {
                assert(hex(n, width)[i] == hex(n / 16, w)[i]);
            }
        }
    }
}

/// A color is written as a `#` and six or eight hexadecimal digits.
pub proof fn law_colors_are_hexadecimal(i: nat)
    ensures
        path_color(i).len() == 7 || path_color(i).len() == 9,
        path_color(i)[0] == '#',
        forall|k: int| 0 <= k < path_color(i).len() ==> is_color_char(#[trigger] path_color(i)[k]),
{
    let r = rgb(i % OPAQUE_COLORS as nat);
    let q = (255 - i / OPAQUE_COLORS as nat % 256) as nat;
    lemma_parts(i);
    lemma_hex_len(r, 6);
    lemma_hex_len(q, 2);
    lemma_hex_chars(r, 6);
    lemma_hex_chars(q, 2);
    assert forall|k: int| 0 <= k < path_color(i).len() implies is_color_char(
        #[trigger] path_color(i)[k],
    ) by {
        if 1 <= k < 7 {
            assert(path_color(i)[k] == hex(r, 6)[k - 1]);
        } else if k >= 7 {
            assert(path_color(i)[k] == hex(q, 2)[k - 7]);
        }
    }
}

} // verus!
