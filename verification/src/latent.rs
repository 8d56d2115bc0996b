//! A latent picture as tokens and back: each 2x2 patch of a channel-last picture is one token,
//! its features ordered by channel, then row, then column.

use vstd::prelude::*;

verus! {

/// Channels of a latent pixel.
pub const Z_DIM: usize = 16;

/// Where feature `p` of the tokens of a picture `w8` pixels wide comes from.
pub open spec fn source_of(p: int, w8: int) -> int {
    let (token, feature) = (p / 64, p % 64);
    let (row, col) = (token / (w8 / 2), token % (w8 / 2));
    let (channel, dy, dx) = (feature / 4, feature / 2 % 2, feature % 2);
    ((2 * row + dy) * w8 + (2 * col + dx)) * 16 + channel
}

/// Where value `p` of a picture `w8` pixels wide goes among the tokens.
pub open spec fn target_of(p: int, w8: int) -> int {
    let (pixel, channel) = (p / 16, p % 16);
    let (y, x) = (pixel / w8, pixel % w8);
    ((y / 2) * (w8 / 2) + x / 2) * 64 + channel * 4 + (y % 2) * 2 + x % 2
}

/// How many token features a picture has.
pub open spec fn token_len(h8: int, w8: int) -> int {
    (h8 / 2) * (w8 / 2) * 64
}

/// How many values a picture has.
pub open spec fn picture_len(h8: int, w8: int) -> int {
    h8 * w8 * 16
}

/// A picture as tokens.
pub open spec fn packed<T>(z: Seq<T>, h8: int, w8: int) -> Seq<T> {
    Seq::new(token_len(h8, w8) as nat, |p: int| z[source_of(p, w8)])
}

/// Tokens as a picture; a last row or column that is in no patch stays blank.
pub open spec fn unpacked<T>(tokens: Seq<T>, h8: int, w8: int, blank: T) -> Seq<T> {
    Seq::new(
        picture_len(h8, w8) as nat,
        |p: int|
            if p / 16 / w8 < h8 / 2 * 2 && p / 16 % w8 < w8 / 2 * 2 {
                tokens[target_of(p, w8)]
            } else {
                blank
            },
    )
}

/// A place among rows of a width, taken apart and put together.
proof fn lemma_grid(row: int, col: int, rows: int, cols: int)
    requires
        0 <= row < rows,
        0 <= col < cols,
    ensures
        0 <= row * cols + col < rows * cols,
        (row * cols + col) / cols == row,
        (row * cols + col) % cols == col,
{
    assert(0 <= row * cols) by (nonlinear_arith)
        requires
            0 <= row,
            0 < cols,
    ;
    assert(row * cols + cols <= rows * cols) by (nonlinear_arith)
        requires
            0 <= row < rows,
            0 < cols,
    ;
    vstd::arithmetic::div_mod::lemma_fundamental_div_mod_converse(row * cols + col, cols, row, col);
}

proof fn lemma_cell(p: int, rows: int, cols: int)
    requires
        0 <= p < rows * cols,
        0 < cols,
    ensures
        0 <= p / cols < rows,
        0 <= p % cols < cols,
        p == (p / cols) * cols + p % cols,
{
    vstd::arithmetic::div_mod::lemma_fundamental_div_mod(p, cols);
    vstd::arithmetic::div_mod::lemma_div_pos_is_pos(p, cols);
    let q = p / cols;
    assert(cols * q == q * cols) by (nonlinear_arith);
    assert(q < rows) by (nonlinear_arith)
        requires
            q * cols + p % cols < rows * cols,
            p % cols >= 0,
            cols > 0,
    ;
}

/// A feature's source lies in the picture, and goes back to the feature.
proof fn lemma_source(p: int, h8: int, w8: int)
    requires
        0 <= p < token_len(h8, w8),
        0 < w8 / 2,
        0 <= h8,
    ensures
        0 <= source_of(p, w8) < picture_len(h8, w8),
        target_of(source_of(p, w8), w8) == p,
        source_of(p, w8) / 16 / w8 < h8 / 2 * 2,
        source_of(p, w8) / 16 % w8 < w8 / 2 * 2,
{
    let (rows, cols) = (h8 / 2, w8 / 2);
    let (token, feature) = (p / 64, p % 64);
    assert(0 <= token < rows * cols);
    lemma_cell(token, rows, cols);
    let (row, col) = (token / cols, token % cols);
    let (channel, dy, dx) = (feature / 4, feature / 2 % 2, feature % 2);
    let (y, x) = (2 * row + dy, 2 * col + dx);
    assert(0 <= y < h8 && 0 <= x < w8);
    lemma_grid(y, x, h8, w8);
    let pixel = y * w8 + x;
    assert(source_of(p, w8) == pixel * 16 + channel);
    assert(feature == channel * 4 + dy * 2 + dx);
    assert((pixel * 16 + channel) / 16 == pixel && (pixel * 16 + channel) % 16 == channel);
    assert(y / 2 == row && y % 2 == dy && x / 2 == col && x % 2 == dx);
}

/// A value's place among the tokens lies there, and comes from the value.
proof fn lemma_target(p: int, h8: int, w8: int)
    requires
        0 <= p < picture_len(h8, w8),
        0 < w8,
        0 <= h8,
        p / 16 / w8 < h8 / 2 * 2,
        p / 16 % w8 < w8 / 2 * 2,
    ensures
        0 <= target_of(p, w8) < token_len(h8, w8),
        source_of(target_of(p, w8), w8) == p,
{
    let (rows, cols) = (h8 / 2, w8 / 2);
    let (pixel, channel) = (p / 16, p % 16);
    assert(0 <= pixel < h8 * w8);
    lemma_cell(pixel, h8, w8);
    let (y, x) = (pixel / w8, pixel % w8);
    let (row, col, dy, dx) = (y / 2, x / 2, y % 2, x % 2);
    lemma_grid(row, col, rows, cols);
    let token = row * cols + col;
    let feature = channel * 4 + dy * 2 + dx;
    let at = token * 64 + feature;
    assert(target_of(p, w8) == at);
    assert(0 <= feature < 64);
    assert(at / 64 == token && at % 64 == feature);
    assert(feature / 4 == channel && feature / 2 % 2 == dy && feature % 2 == dx);
    assert(2 * row + dy == y && 2 * col + dx == x);
}

/// A channel-last picture of `h8` by `w8` pixels as tokens of 64 features.
pub fn pack_latent<T: Copy>(z: &[T], h8: usize, w8: usize) -> (tokens: Vec<T>)
    requires
        z@.len() == picture_len(h8 as int, w8 as int),
    ensures
        tokens@ == packed(z@, h8 as int, w8 as int),
{
    let ghost total = token_len(h8 as int, w8 as int);
    let cols: usize = w8 / 2;
    let rows: usize = h8 / 2;
    let mut out: Vec<T> = Vec::new();
    let mut row: usize = 0;
    proof {
        assert(0 * cols == 0) by (nonlinear_arith);
    }
    while row < rows
        invariant
            row <= rows,
            rows == h8 / 2,
            cols == w8 / 2,
            z@.len() == picture_len(h8 as int, w8 as int),
            out@.len() == row * cols * 64,
            total == token_len(h8 as int, w8 as int),
            forall|p: int|
                0 <= p < out@.len() ==> #[trigger] out@[p] == z@[source_of(p, w8 as int)],
        decreases rows - row,
    {
        let mut col: usize = 0;
        while col < cols
            invariant
                row < rows,
                col <= cols,
                rows == h8 / 2,
                cols == w8 / 2,
                z@.len() == picture_len(h8 as int, w8 as int),
                out@.len() == (row * cols + col) * 64,
                total == token_len(h8 as int, w8 as int),
                forall|p: int|
                    0 <= p < out@.len() ==> #[trigger] out@[p] == z@[source_of(p, w8 as int)],
            decreases cols - col,
        {
            proof {
                lemma_grid(row as int, col as int, rows as int, cols as int);
            }
            let mut f: usize = 0;
            while f < 64
                invariant
                    row < rows,
                    col < cols,
                    f <= 64,
                    rows == h8 / 2,
                    cols == w8 / 2,
                    z@.len() == picture_len(h8 as int, w8 as int),
                    out@.len() == (row * cols + col) * 64 + f,
                    (row * cols + col) * 64 + 64 <= total,
                    (row * cols + col) / (cols as int) == row,
                    (row * cols + col) % (cols as int) == col,
                    0 <= row * cols + col,
                    total == token_len(h8 as int, w8 as int),
                    forall|p: int|
                        0 <= p < out@.len() ==> #[trigger] out@[p] == z@[source_of(p, w8 as int)],
                decreases 64 - f,
            {
                let ghost at = out@.len() as int;
                proof {
                    let token = row * cols + col;
                    assert(at / 64 == token && at % 64 == f);
                    lemma_source(at, h8 as int, w8 as int);
                    lemma_grid(
                        2 * row + f / 2 % 2,
                        2 * col + f % 2,
                        h8 as int,
                        w8 as int,
                    );
                    assert((2 * row + f / 2 % 2) * w8 <= (2 * row + f / 2 % 2) * w8 + (2 * col + f
                        % 2));
                }
                let len: usize = z.len();
                assert(h8 * w8 * 16 == len);
                let channel: usize = f / 4;
                let y: usize = 2 * row + f / 2 % 2;
                let x: usize = 2 * col + f % 2;
                let pixel: usize = y * w8 + x;
                out.push(z[pixel * 16 + channel]);
                f = f + 1;
            }
            col = col + 1;
        }
        proof {
            assert((row + 1) * cols == row * cols + cols) by (nonlinear_arith);
        }
        row = row + 1;
    }
    assert(out@ =~= packed(z@, h8 as int, w8 as int));
    out
}

/// The inverse of [`pack_latent`]: tokens as a picture. A last row or column that is in no
/// patch is left `blank`.
pub fn unpack_latent<T: Copy>(tokens: &[T], h8: usize, w8: usize, blank: T) -> (z: Vec<T>)
    requires
        tokens@.len() == token_len(h8 as int, w8 as int),
        picture_len(h8 as int, w8 as int) <= usize::MAX,
    ensures
        z@ == unpacked(tokens@, h8 as int, w8 as int, blank),
{
    let ghost goal = unpacked(tokens@, h8 as int, w8 as int, blank);
    let cols: usize = w8 / 2;
    let rows: usize = h8 / 2;
    let mut z: Vec<T> = Vec::new();
    let mut y: usize = 0;
    proof {
        assert(0 * w8 == 0) by (nonlinear_arith);
    }
    while y < h8
        invariant
            y <= h8,
            rows == h8 / 2,
            cols == w8 / 2,
            tokens@.len() == token_len(h8 as int, w8 as int),
            picture_len(h8 as int, w8 as int) <= usize::MAX,
            goal == unpacked(tokens@, h8 as int, w8 as int, blank),
            z@.len() == y * w8 * 16,
            z@.len() <= goal.len(),
            forall|p: int| 0 <= p < z@.len() ==> #[trigger] z@[p] == goal[p],
        decreases h8 - y,
    {
        let mut x: usize = 0;
        while x < w8
            invariant
                y < h8,
                x <= w8,
                rows == h8 / 2,
                cols == w8 / 2,
                tokens@.len() == token_len(h8 as int, w8 as int),
                picture_len(h8 as int, w8 as int) <= usize::MAX,
                goal == unpacked(tokens@, h8 as int, w8 as int, blank),
                z@.len() == (y * w8 + x) * 16,
                forall|p: int| 0 <= p < z@.len() ==> #[trigger] z@[p] == goal[p],
            decreases w8 - x,
        {
            proof {
                lemma_grid(y as int, x as int, h8 as int, w8 as int);
            }
            let mut c: usize = 0;
            while c < 16
                invariant
                    y < h8,
                    x < w8,
                    c <= 16,
                    rows == h8 / 2,
                    cols == w8 / 2,
                    tokens@.len() == token_len(h8 as int, w8 as int),
                    picture_len(h8 as int, w8 as int) <= usize::MAX,
                    goal == unpacked(tokens@, h8 as int, w8 as int, blank),
                    z@.len() == (y * w8 + x) * 16 + c,
                    (y * w8 + x) * 16 + 16 <= goal.len(),
                    (y * w8 + x) / (w8 as int) == y,
                    (y * w8 + x) % (w8 as int) == x,
                    0 <= y * w8 + x,
                    forall|p: int| 0 <= p < z@.len() ==> #[trigger] z@[p] == goal[p],
                decreases 16 - c,
            {
                let ghost at = z@.len() as int;
                proof {
                    assert(at / 16 == y * w8 + x && at % 16 == c);
                }
                let value: T = if y / 2 < rows && x / 2 < cols {
                    proof {
                        lemma_target(at, h8 as int, w8 as int);
                        lemma_grid(y as int / 2, x as int / 2, rows as int, cols as int);
                    }
                    let len: usize = tokens.len();
                    assert(rows * cols * 64 == len);
                    let token: usize = (y / 2) * cols + x / 2;
                    tokens[token * 64 + c * 4 + (y % 2) * 2 + x % 2]
                } else {
                    blank
                };
                z.push(value);
                c = c + 1;
            }
            x = x + 1;
        }
        proof {
            assert((y + 1) * w8 == y * w8 + w8) by (nonlinear_arith);
            assert((y + 1) * w8 <= h8 * w8) by (nonlinear_arith)
                requires
                    y < h8,
            ;
        }
        y = y + 1;
    }
    assert(z@ =~= goal);
    z
}

/// Unpacking what was packed gives the picture back, whatever it holds, where both sides are
/// even.
pub proof fn law_unpacking_undoes_packing<T>(z: Seq<T>, h8: int, w8: int, blank: T)
    requires
        h8 >= 0,
        w8 >= 0,
        h8 % 2 == 0,
        w8 % 2 == 0,
        z.len() == picture_len(h8, w8),
    ensures
        unpacked(packed(z, h8, w8), h8, w8, blank) == z,
{
    let back = unpacked(packed(z, h8, w8), h8, w8, blank);
    assert forall|p: int| 0 <= p < z.len() implies back[p] == z[p] by {
        if w8 == 0 {
            assert(h8 * 0 == 0) by (nonlinear_arith);
        }
        let pixel = p / 16;
        assert(0 <= pixel < h8 * w8);
        lemma_cell(pixel, h8, w8);
        lemma_target(p, h8, w8);
    }
    assert(back =~= z);
}

/// Packing what was unpacked gives the tokens back.
pub proof fn law_packing_undoes_unpacking<T>(tokens: Seq<T>, h8: int, w8: int, blank: T)
    requires
        h8 >= 0,
        w8 >= 0,
        tokens.len() == token_len(h8, w8),
    ensures
        packed(unpacked(tokens, h8, w8, blank), h8, w8) == tokens,
{
    let back = packed(unpacked(tokens, h8, w8, blank), h8, w8);
    assert forall|p: int| 0 <= p < tokens.len() implies back[p] == tokens[p] by {
        if w8 / 2 == 0 {
            assert((h8 / 2) * 0 == 0) by (nonlinear_arith);
        }
        lemma_source(p, h8, w8);
    }
    assert(back =~= tokens);
}

/// The token of a patch holds its four pixels: feature `4 * channel + 2 * dy + dx` of the token in
/// row `row` and column `col` is that channel of the pixel `dy` down and `dx` across in the patch.
pub proof fn law_a_token_is_its_patch<T>(
    z: Seq<T>,
    h8: int,
    w8: int,
    blank: T,
    row: int,
    col: int,
    channel: int,
    dy: int,
    dx: int,
)
    requires
        0 <= 2 * row && 2 * row + 1 < h8,
        0 <= 2 * col && 2 * col + 1 < w8,
        0 <= channel < 16,
        0 <= dy < 2,
        0 <= dx < 2,
    ensures
        ({
            let feature = 64 * (row * (w8 / 2) + col) + 4 * channel + 2 * dy + dx;
            let value = 16 * ((2 * row + dy) * w8 + 2 * col + dx) + channel;
            &&& packed(z, h8, w8).len() == 64 * ((h8 / 2) * (w8 / 2))
            &&& packed(z, h8, w8)[feature] == z[value]
            &&& unpacked(z, h8, w8, blank).len() == 16 * (h8 * w8)
            &&& unpacked(z, h8, w8, blank)[value] == z[feature]
        }),
        Z_DIM == 16,
{
    let (rows, cols) = (h8 / 2, w8 / 2);
    lemma_grid(row, col, rows, cols);
    let token = row * cols + col;
    let p = 64 * token + 4 * channel + 2 * dy + dx;
    assert(p / 64 == token && p % 64 == 4 * channel + 2 * dy + dx);
    lemma_grid(2 * row + dy, 2 * col + dx, h8, w8);
    let pixel = (2 * row + dy) * w8 + (2 * col + dx);
    let v = 16 * pixel + channel;
    assert(v / 16 == pixel && v % 16 == channel);
    assert(source_of(p, w8) == v);
    assert(target_of(v, w8) == p);
    assert(0 <= token < rows * cols);
    assert(rows * cols >= 0);
    assert(token_len(h8, w8) == 64 * (rows * cols));
    assert(picture_len(h8, w8) == 16 * (h8 * w8));
    assert(0 <= pixel < h8 * w8);
}

/// A row or a column that is in no patch comes out blank.
pub proof fn law_what_is_in_no_patch_is_blank<T>(
    tokens: Seq<T>,
    h8: int,
    w8: int,
    blank: T,
    y: int,
    x: int,
    channel: int,
)
    requires
        0 <= y < h8,
        0 <= x < w8,
        0 <= channel < 16,
        y == h8 - 1 && h8 % 2 == 1 || x == w8 - 1 && w8 % 2 == 1,
    ensures
        unpacked(tokens, h8, w8, blank)[16 * (y * w8 + x) + channel] == blank,
{
    lemma_grid(y, x, h8, w8);
    let pixel = y * w8 + x;
    let v = 16 * pixel + channel;
    assert(v / 16 == pixel && v % 16 == channel);
}

} // verus!
