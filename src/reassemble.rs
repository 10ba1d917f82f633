//! From a heap of fragments to the whole picture: block size, grid size and
//! seed from the border roles, fingerprints, search, and the final copy.

use vstd::prelude::*;
use vstd::arithmetic::div_mod::lemma_fundamental_div_mod;
use crate::fragment::{
    MapPiece, bottom_left_role, left_key, left_role, right_key, top_left_role, top_role,
};
use crate::grid::{FilledPieces, Layout, edges};

verus! {

pub open spec fn pieces_view(pieces: &Vec<MapPiece>) -> Seq<Seq<Seq<u8>>> {
    pieces@.map_values(|p: MapPiece| p@)
}

pub open spec fn rows_view(rows: &Vec<Vec<u8>>) -> Seq<Seq<u8>> {
    rows@.map_values(|row: Vec<u8>| row@)
}

/// The smallest fragment height: the height of one block.
pub open spec fn min_height(ps: Seq<Seq<Seq<u8>>>) -> nat
    decreases ps.len(),
{
    if ps.len() <= 1 {
        if ps.len() == 1 {
            ps[0].len()
        } else {
            0
        }
    } else {
        let m = min_height(ps.drop_last());
        if ps.last().len() < m {
            ps.last().len()
        } else {
            m
        }
    }
}

/// The width of the first fragment: the width of one block.
pub open spec fn block_width(ps: Seq<Seq<Seq<u8>>>) -> nat {
    if ps.len() > 0 && ps[0].len() > 0 {
        ps[0][0].len()
    } else {
        0
    }
}

/// Number of fragments of the top border.
pub open spec fn tops(ps: Seq<Seq<Seq<u8>>>) -> nat
    decreases ps.len(),
{
    if ps.len() == 0 {
        0
    } else {
        tops(ps.drop_last()) + if top_role(ps.last()) {
            1nat
        } else {
            0
        }
    }
}

/// A fragment of the left border column: a left-hand corner or a left edge.
pub open spec fn left_column_role(p: Seq<Seq<u8>>) -> bool {
    top_left_role(p) || left_role(p) || bottom_left_role(p)
}

/// Rows of all the fragments of the left border column together.
pub open spec fn left_column_rows(ps: Seq<Seq<Seq<u8>>>) -> nat
    decreases ps.len(),
{
    if ps.len() == 0 {
        0
    } else {
        left_column_rows(ps.drop_last()) + if left_column_role(ps.last()) {
            ps.last().len()
        } else {
            0
        }
    }
}

/// The first fragment from index `i` on that is the top-left corner.
pub open spec fn top_left_from(ps: Seq<Seq<Seq<u8>>>, i: int) -> Option<nat>
    decreases ps.len() - i,
{
    if i < 0 || i >= ps.len() {
        None
    } else if top_left_role(ps[i]) {
        Some(i as nat)
    } else {
        top_left_from(ps, i + 1)
    }
}

/// Left and right fingerprints of each block of a fragment.
pub open spec fn block_keys(p: Seq<Seq<u8>>, bs: nat) -> Seq<(u32, u32)> {
    Seq::new(p.len() / bs, |j: int| (left_key(p, j as nat, bs) as u32, right_key(p, j as nat, bs) as u32))
}

/// Left and right fingerprints of every block of every fragment.
pub open spec fn key_table(ps: Seq<Seq<Seq<u8>>>, bs: nat) -> Seq<Seq<(u32, u32)>> {
    Seq::new(ps.len(), |i: int| block_keys(ps[i], bs))
}

/// Grid width in blocks: the top border plus the two corner columns.
pub open spec fn grid_width(ps: Seq<Seq<Seq<u8>>>) -> nat {
    tops(ps) + 2
}

/// Grid height in blocks: the left column's rows over the block height.
pub open spec fn grid_height(ps: Seq<Seq<Seq<u8>>>) -> nat {
    left_column_rows(ps) / min_height(ps)
}

/// The fragments give a block size, a top-left corner, and a grid and a
/// picture whose sizes fit in memory.
pub open spec fn frame_ok(ps: Seq<Seq<Seq<u8>>>) -> bool {
    let w = grid_width(ps);
    let h = grid_height(ps);
    &&& ps.len() > 0
    &&& min_height(ps) > 0
    &&& top_left_from(ps, 0) is Some
    &&& w <= usize::MAX
    &&& h <= usize::MAX
    &&& w * h <= usize::MAX
    &&& h * min_height(ps) <= usize::MAX
    &&& w * block_width(ps) <= usize::MAX
}

/// The empty grid with the top-left corner fragment placed at the top-left
/// cell, if its blocks fit in the column.
pub open spec fn seeded(ps: Seq<Seq<Seq<u8>>>) -> Layout {
    let g = Layout::empty(grid_width(ps), grid_height(ps));
    let t = top_left_from(ps, 0).unwrap();
    let n = ps[t as int].len() / min_height(ps);
    if n <= g.height {
        g.place(0, 0, t as usize, n as int)
    } else {
        g
    }
}

/// The byte at row `y`, column `x` of the picture that grid `g` describes.
/// Cells without a fragment, and blocks that the fragment lacks, give zero.
pub open spec fn picture_byte(
    g: Layout,
    ps: Seq<Seq<Seq<u8>>>,
    bh: nat,
    bw: nat,
    y: int,
    x: int,
) -> u8 {
    match g.key_index(y / (bh as int), x / (bw as int)) {
        Some((p, off)) => {
            let row = y % (bh as int) + off * bh;
            let col = x % (bw as int);
            if p < ps.len() && row < ps[p as int].len() && col < ps[p as int][row].len() {
                ps[p as int][row][col]
            } else {
                0
            }
        },
        None => 0,
    }
}

/// The picture that grid `g` describes, blocks `bh` rows by `bw` bytes.
pub open spec fn picture(g: Layout, ps: Seq<Seq<Seq<u8>>>, bh: nat, bw: nat) -> Seq<Seq<u8>> {
    Seq::new(
        g.height * bh,
        |y: int| Seq::new(g.width * bw, |x: int| picture_byte(g, ps, bh, bw, y, x)),
    )
}

fn picture_byte_at(
    grid: &FilledPieces,
    pieces: &Vec<MapPiece>,
    bh: usize,
    bw: usize,
    y: usize,
    x: usize,
) -> (r: u8)
    requires
        grid.wf(),
        bh > 0,
        bw > 0,
    ensures
        r == picture_byte(grid@, pieces_view(pieces), bh as nat, bw as nat, y as int, x as int),
{
    let ghost ps = pieces_view(pieces);
    match grid.key_index(y / bh, x / bw) {
        Some((p, off)) => {
            proof {
                lemma_fundamental_div_mod(y as int, bh as int);
                assert(off * bh <= (y / bh) * bh) by (nonlinear_arith)
                    requires
                        off <= y / bh,
                        bh > 0,
                ;
                assert((y / bh) * bh == bh * (y / bh)) by (nonlinear_arith);
            }
            let row = y % bh + off * bh;
            let col = x % bw;
            if p < pieces.len() && row < pieces[p].bytes.len() && col < pieces[p].bytes[row].len() {
                pieces[p].bytes[row][col]
            } else {
                0
            }
        },
        None => 0,
    }
}

/// Copies each placed block into its place in the picture.
pub fn assemble(grid: &FilledPieces, pieces: &Vec<MapPiece>, bh: usize, bw: usize) -> (r: Vec<
    Vec<u8>,
>)
    requires
        grid.wf(),
        bh > 0,
        grid@.height * bh <= usize::MAX,
        grid@.width * bw <= usize::MAX,
    ensures
        rows_view(&r) == picture(grid@, pieces_view(pieces), bh as nat, bw as nat),
{
    let ghost ps = pieces_view(pieces);
    let ghost pic = picture(grid@, ps, bh as nat, bw as nat);
    let nrows = grid.height() * bh;
    let ncols = grid.width() * bw;
    let mut out: Vec<Vec<u8>> = Vec::new();
    let mut y: usize = 0;
    while y < nrows
        invariant
            grid.wf(),
            bh > 0,
            pic == picture(grid@, ps, bh as nat, bw as nat),
            ps == pieces_view(pieces),
            nrows == grid@.height * bh,
            ncols == grid@.width * bw,
            y <= nrows,
            out@.len() == y,
            forall|k: int| 0 <= k < y ==> #[trigger] out@[k]@ == pic[k],
        decreases nrows - y,
    {
        let mut line: Vec<u8> = Vec::new();
        let mut x: usize = 0;
        while x < ncols
            invariant
                grid.wf(),
                bh > 0,
                ncols == grid@.width * bw,
                ps == pieces_view(pieces),
                x <= ncols,
                line@.len() == x,
                forall|k: int|
                    0 <= k < x ==> #[trigger] line@[k] == picture_byte(
                        grid@,
                        ps,
                        bh as nat,
                        bw as nat,
                        y as int,
                        k,
                    ),
            decreases ncols - x,
        {
            assert(bw > 0) by {
                if bw == 0 {
                    assert(grid@.width * bw == 0);
                }
            }
            line.push(picture_byte_at(grid, pieces, bh, bw, y, x));
            x += 1;
        }
        assert(line@ =~= pic[y as int]);
        out.push(line);
        y += 1;
    }
    assert(rows_view(&out) =~= pic);
    out
}


proof fn lemma_min_height_le(ps: Seq<Seq<Seq<u8>>>, k: int)
    requires
        0 <= k < ps.len(),
    ensures
        min_height(ps) <= ps[k].len(),
    decreases ps.len(),
{
    if ps.len() > 1 && k < ps.len() - 1 {
        lemma_min_height_le(ps.drop_last(), k);
    }
}

/// The height of one block: the smallest fragment height.
pub fn block_height(pieces: &Vec<MapPiece>) -> (r: usize)
    requires
        pieces@.len() > 0,
    ensures
        r == min_height(pieces_view(pieces)),
{
    let ghost ps = pieces_view(pieces);
    let mut m = pieces[0].height();
    let mut i: usize = 1;
    assert(ps.take(1).len() == 1);
    while i < pieces.len()
        invariant
            ps == pieces_view(pieces),
            1 <= i <= pieces@.len(),
            m == min_height(ps.take(i as int)),
        decreases pieces@.len() - i,
    {
        assert(ps.take(i as int + 1).drop_last() =~= ps.take(i as int));
        let h = pieces[i].height();
        if h < m {
            m = h;
        }
        i += 1;
    }
    assert(ps.take(pieces@.len() as int) =~= ps);
    m
}

/// Fingerprints of every block of every fragment.
pub fn fragment_keys(pieces: &Vec<MapPiece>, bh: usize) -> (r: Vec<Vec<(u32, u32)>>)
    requires
        bh > 0,
    ensures
        edges(&r) == key_table(pieces_view(pieces), bh as nat),
{
    let ghost ps = pieces_view(pieces);
    let ghost table = key_table(ps, bh as nat);
    let mut out: Vec<Vec<(u32, u32)>> = Vec::new();
    let mut i: usize = 0;
    while i < pieces.len()
        invariant
            ps == pieces_view(pieces),
            table == key_table(ps, bh as nat),
            bh > 0,
            i <= pieces@.len(),
            out@.len() == i,
            forall|k: int| 0 <= k < i ==> #[trigger] out@[k]@ == table[k],
        decreases pieces@.len() - i,
    {
        let piece = &pieces[i];
        let n = piece.height() / bh;
        let mut blocks: Vec<(u32, u32)> = Vec::new();
        let mut j: usize = 0;
        while j < n
            invariant
                ps == pieces_view(pieces),
                table == key_table(ps, bh as nat),
                i < pieces@.len(),
                *piece == pieces@[i as int],
                n == ps[i as int].len() / (bh as nat),
                j <= n,
                blocks@.len() == j,
                forall|k: int| 0 <= k < j ==> #[trigger] blocks@[k] == table[i as int][k],
            decreases n - j,
        {
            let kp = piece.keys(j, bh);
            assert(ps[i as int] == piece@);
            assert(table[i as int] == block_keys(ps[i as int], bh as nat));
            assert(kp == table[i as int][j as int]);
            blocks.push(kp);
            j += 1;
        }
        assert(blocks@ =~= table[i as int]);
        out.push(blocks);
        i += 1;
    }
    assert(edges(&out) =~= table);
    out
}

/// Number of fragments of the top border.
pub fn count_tops(pieces: &Vec<MapPiece>) -> (r: usize)
    ensures
        r == tops(pieces_view(pieces)),
{
    let ghost ps = pieces_view(pieces);
    let mut count: usize = 0;
    let mut i: usize = 0;
    assert(ps.take(0) =~= Seq::<Seq<Seq<u8>>>::empty());
    while i < pieces.len()
        invariant
            ps == pieces_view(pieces),
            i <= pieces@.len(),
            count == tops(ps.take(i as int)),
            count <= i,
        decreases pieces@.len() - i,
    {
        assert(ps.take(i as int + 1).drop_last() =~= ps.take(i as int));
        if pieces[i].is_top() {
            count += 1;
        }
        i += 1;
    }
    assert(ps.take(pieces@.len() as int) =~= ps);
    count
}

/// Rows of all the fragments of the left border column together.
pub fn count_left_column_rows(pieces: &Vec<MapPiece>) -> (r: u128)
    ensures
        r == left_column_rows(pieces_view(pieces)),
{
    let ghost ps = pieces_view(pieces);
    let mut total: u128 = 0;
    let mut i: usize = 0;
    assert(ps.take(0) =~= Seq::<Seq<Seq<u8>>>::empty());
    while i < pieces.len()
        invariant
            ps == pieces_view(pieces),
            i <= pieces@.len(),
            total == left_column_rows(ps.take(i as int)),
            total <= i * 0x1_0000_0000_0000_0000,
        decreases pieces@.len() - i,
    {
        assert(ps.take(i as int + 1).drop_last() =~= ps.take(i as int));
        let piece = &pieces[i];
        if piece.is_top_left() || piece.is_left() || piece.is_bottom_left() {
            let h = piece.height() as u128;
            assert(i * 0x1_0000_0000_0000_0000 + 0x1_0000_0000_0000_0000 <= u128::MAX) by (nonlinear_arith)
                requires
                    i < usize::MAX,
                    usize::MAX <= u64::MAX,
            ;
            total = total + h;
        }
        i += 1;
    }
    assert(ps.take(pieces@.len() as int) =~= ps);
    total
}

/// Index of the first top-left corner fragment.
pub fn find_top_left(pieces: &Vec<MapPiece>) -> (r: Option<usize>)
    ensures
        r is None <==> top_left_from(pieces_view(pieces), 0) is None,
        r matches Some(t) ==> top_left_from(pieces_view(pieces), 0) == Some(t as nat) && t
            < pieces@.len(),
{
    let ghost ps = pieces_view(pieces);
    let mut i: usize = 0;
    while i < pieces.len()
        invariant
            ps == pieces_view(pieces),
            i <= pieces@.len(),
            top_left_from(ps, 0) == top_left_from(ps, i as int),
        decreases pieces@.len() - i,
    {
        if pieces[i].is_top_left() {
            return Some(i);
        }
        i += 1;
    }
    None
}

/// Puts the picture back together: derives block and grid sizes from the
/// border fragments, seeds the grid with the top-left corner, searches, and
/// copies the blocks out. `None` when the fragments give no frame or the
/// search gets stuck.
pub fn reassemble(pieces: &Vec<MapPiece>) -> (r: Option<Vec<Vec<u8>>>)
    ensures
        match r {
            Some(map) => {
                &&& frame_ok(pieces_view(pieces))
                &&& exists|g: Layout|
                    #[trigger] seeded(pieces_view(pieces)).solve_outcome(
                        key_table(pieces_view(pieces), min_height(pieces_view(pieces))),
                        g,
                        true,
                    ) && rows_view(&map) == picture(
                        g,
                        pieces_view(pieces),
                        min_height(pieces_view(pieces)),
                        block_width(pieces_view(pieces)),
                    )
            },
            None => !frame_ok(pieces_view(pieces)) || exists|g: Layout|
                #[trigger] seeded(pieces_view(pieces)).solve_outcome(
                    key_table(pieces_view(pieces), min_height(pieces_view(pieces))),
                    g,
                    false,
                ),
        },
{
    let ghost ps = pieces_view(pieces);
    if pieces.len() == 0 {
        return None;
    }
    let bh = block_height(pieces);
    if bh == 0 {
        return None;
    }
    let bw = pieces[0].width();
    let t = match find_top_left(pieces) {
        Some(t) => t,
        None => return None,
    };
    let top_count = count_tops(pieces);
    if top_count > usize::MAX - 2 {
        return None;
    }
    let w = top_count + 2;
    let h_wide = count_left_column_rows(pieces) / (bh as u128);
    if h_wide > usize::MAX as u128 {
        return None;
    }
    let h = h_wide as usize;
    let w_wide = w as u128;
    let bh_wide = bh as u128;
    let bw_wide = bw as u128;
    assert(w_wide * h_wide <= u128::MAX && h_wide * bh_wide <= u128::MAX && w_wide * bw_wide
        <= u128::MAX) by (nonlinear_arith)
        requires
            w_wide <= u64::MAX,
            h_wide <= u64::MAX,
            bh_wide <= u64::MAX,
            bw_wide <= u64::MAX,
    ;
    if w_wide * h_wide > usize::MAX as u128 || h_wide * bh_wide > usize::MAX as u128 || w_wide
        * bw_wide > usize::MAX as u128 {
        return None;
    }
    assert(frame_ok(ps));
    let keys = fragment_keys(pieces, bh);
    let mut grid = FilledPieces::new(w, h);
    let n = pieces[t].height() / bh;
    proof {
        assert(pieces@[t as int]@.len() >= min_height(ps)) by {
            lemma_min_height_le(ps, t as int);
        }
        assert(n >= 1) by (nonlinear_arith)
            requires
                n == pieces@[t as int]@.len() / (bh as nat),
                pieces@[t as int]@.len() >= bh,
                bh > 0,
        ;
    }
    let ghost g0 = grid@;
    assert(g0 == Layout::empty(grid_width(ps), grid_height(ps)));
    assert(top_left_from(ps, 0).unwrap() == t);
    assert(n == ps[t as int].len() / min_height(ps));
    grid.set(0, 0, t, n);
    assert(grid@ == seeded(ps));
    proof {
        assert(edges(&keys).len() == keys@.len());
        assert forall|k: int| 0 <= k < keys@.len() implies #[trigger] keys@[k]@.len() >= 1 by {
            assert(edges(&keys)[k] == keys@[k]@);
            lemma_min_height_le(ps, k);
            let len = ps[k].len();
            assert(len / (bh as nat) >= 1) by (nonlinear_arith)
                requires
                    len >= bh,
                    bh > 0,
            ;
        }
    }
    let solved = grid.solve(&keys);
    if !solved {
        return None;
    }
    let map = assemble(&grid, pieces, bh, bw);
    Some(map)
}

} // verus!
