//! Proximity streaming: derive which map chunks must be loaded or unloaded
//! from the dwellers' positions.

use vstd::prelude::*;
use vstd::arithmetic::div_mod::lemma_div_is_ordered;

use crate::dwellers::{cell_listed, cheb, contains_cell, coord_cell, Dweller, CHUNK_SIZE};
use crate::grid::CellIndex;

verus! {

broadcast use vstd::group_vstd_default;

/// Chunks within this Chebyshev distance of a dweller's chunk are kept
/// loaded.
pub const LOAD_CHUNKS_RADIUS: u32 = 1;

/// Which chunk a cell coordinate falls in: division by the chunk size,
/// rounded toward negative infinity.
pub open spec fn chunk_coord(v: int) -> int {
    if v >= 0 {
        v / (CHUNK_SIZE as int)
    } else {
        -((-v + CHUNK_SIZE - 1) / (CHUNK_SIZE as int))
    }
}

/// The chunk a dweller stands in, by its logical cell.
pub open spec fn dweller_chunk_x(d: Dweller) -> int {
    chunk_coord(coord_cell(d.spec_motion().x as int))
}

pub open spec fn dweller_chunk_y(d: Dweller) -> int {
    chunk_coord(coord_cell(d.spec_motion().y as int))
}

/// Compute `chunk_coord` on a bounded coordinate.
pub fn cell_to_chunk(v: i32) -> (r: i32)
    requires
        -0x400000 <= v <= 0x400000,
    ensures
        r as int == chunk_coord(v as int),
        -0x80000 <= r <= 0x80000,
{
    if v >= 0 {
        proof {
            lemma_div_is_ordered(v as int, 0x400000, CHUNK_SIZE as int);
        }
        ((v as u64) / (CHUNK_SIZE as u64)) as i32
    } else {
        let m = (-(v as i64)) as u64;
        proof {
            lemma_div_is_ordered(m as int + CHUNK_SIZE - 1, 0x400000 + CHUNK_SIZE - 1, CHUNK_SIZE as int);
        }
        -(((m + (CHUNK_SIZE as u64) - 1) / (CHUNK_SIZE as u64)) as i32)
    }
}

/// The chunk at offset (i, j) from (cx, cy) is listed.
pub open spec fn off_listed(q: Seq<CellIndex>, cx: int, cy: int, i: int, j: int) -> bool {
    cell_listed(q, cx + i, cy + j)
}

/// Every chunk of the 3-by-3 block around (cx, cy) is listed.
pub open spec fn block_listed(q: Seq<CellIndex>, cx: int, cy: int) -> bool {
    forall|i: int, j: int|
        -1 <= i <= 1 && -1 <= j <= 1 ==> #[trigger] off_listed(q, cx, cy, i, j)
}

proof fn lemma_listed_push(q0: Seq<CellIndex>, c: CellIndex, x: int, y: int)
    requires
        cell_listed(q0, x, y),
    ensures
        cell_listed(q0.push(c), x, y),
{
    let l = choose|l: int|
        0 <= l < q0.len() && (#[trigger] q0[l]).x as int == x && q0[l].y as int == y;
    assert(q0.push(c)[l] == q0[l]);
}

proof fn lemma_block_listed_push(q0: Seq<CellIndex>, c: CellIndex, cx: int, cy: int)
    requires
        block_listed(q0, cx, cy),
    ensures
        block_listed(q0.push(c), cx, cy),
{
    assert forall|i: int, j: int|
        -1 <= i <= 1 && -1 <= j <= 1 implies #[trigger] off_listed(q0.push(c), cx, cy, i, j) by {
        assert(off_listed(q0, cx, cy, i, j));
        lemma_listed_push(q0, c, cx + i, cy + j);
    }
}

/// Every chunk within the load radius of any dweller's chunk is listed.
pub open spec fn loads_complete(ds: Seq<Dweller>, q: Seq<CellIndex>) -> bool {
    forall|k: int, c: CellIndex|
        #![trigger ds[k], q.contains(c)]
        0 <= k < ds.len() && cheb(
            c.x as int,
            c.y as int,
            dweller_chunk_x(ds[k]),
            dweller_chunk_y(ds[k]),
        ) <= LOAD_CHUNKS_RADIUS ==> q.contains(c)
}

/// The chunk `c` lies within the load radius of some dweller's chunk.
pub open spec fn load_near(ds: Seq<Dweller>, c: CellIndex) -> bool {
    exists|k: int|
        0 <= k < ds.len() && cheb(
            c.x as int,
            c.y as int,
            dweller_chunk_x(#[trigger] ds[k]),
            dweller_chunk_y(ds[k]),
        ) <= LOAD_CHUNKS_RADIUS
}

/// The chunk-streaming pass: every chunk within `LOAD_CHUNKS_RADIUS` of a
/// dweller's chunk is requested for loading, once; every currently-loaded
/// chunk not requested is requested for unloading. With zero dwellers, no
/// requests at all are emitted.
pub fn update_dwellers_load_chunks(dwellers: &Vec<Dweller>, loaded_chunks: &Vec<CellIndex>) -> (r: (
    Vec<CellIndex>,
    Vec<CellIndex>,
))
    requires
        forall|k: int| 0 <= k < dwellers@.len() ==> (#[trigger] dwellers@[k]).wf(),
    ensures
        // each load request is near some dweller, and is issued once
        forall|i: int| 0 <= i < r.0@.len() ==> load_near(dwellers@, #[trigger] r.0@[i]),
        forall|i: int, j: int| 0 <= i < j < r.0@.len() ==> #[trigger] r.0@[i] != #[trigger] r.0@[j],
        // every chunk within the radius of some dweller's chunk is requested
        loads_complete(dwellers@, r.0@),
        // unload requests are exactly the loaded chunks left untouched, once each
        forall|i: int|
            0 <= i < r.1@.len() ==> loaded_chunks@.contains(#[trigger] r.1@[i]) && !r.0@.contains(
                r.1@[i],
            ),
        forall|i: int, j: int| 0 <= i < j < r.1@.len() ==> #[trigger] r.1@[i] != #[trigger] r.1@[j],
        dwellers@.len() > 0 ==> forall|j: int|
            0 <= j < loaded_chunks@.len() && !r.0@.contains(#[trigger] loaded_chunks@[j])
                ==> r.1@.contains(loaded_chunks@[j]),
        // with no dwellers, nothing is loaded and nothing is unloaded
        dwellers@.len() == 0 ==> r.0@.len() == 0 && r.1@.len() == 0,
{
    let mut loads: Vec<CellIndex> = Vec::new();
    let n = dwellers.len();
    let mut k: usize = 0;
    while k < n
        invariant
            n == dwellers@.len(),
            k <= n,
            forall|kk: int| 0 <= kk < n ==> (#[trigger] dwellers@[kk]).wf(),
            forall|i: int| 0 <= i < loads@.len() ==> load_near(dwellers@, #[trigger] loads@[i]),
            forall|i: int, j: int|
                0 <= i < j < loads@.len() ==> #[trigger] loads@[i] != #[trigger] loads@[j],
            forall|kk: int|
                0 <= kk < k ==> block_listed(
                    loads@,
                    dweller_chunk_x(#[trigger] dwellers@[kk]),
                    dweller_chunk_y(dwellers@[kk]),
                ),
        decreases n - k,
    {
        let d = &dwellers[k];
        let cell = d.cell();
        let chx = cell_to_chunk(cell.x);
        let chy = cell_to_chunk(cell.y);
        let mut di: i64 = -1;
        while di <= 1
            invariant
                n == dwellers@.len(),
                k < n,
                forall|kk: int| 0 <= kk < n ==> (#[trigger] dwellers@[kk]).wf(),
                -1 <= di <= 2,
                chx as int == dweller_chunk_x(dwellers@[k as int]),
                chy as int == dweller_chunk_y(dwellers@[k as int]),
                -0x80000 <= chx <= 0x80000 && -0x80000 <= chy <= 0x80000,
                forall|i: int| 0 <= i < loads@.len() ==> load_near(dwellers@, #[trigger] loads@[i]),
                forall|i: int, j: int|
                    0 <= i < j < loads@.len() ==> #[trigger] loads@[i] != #[trigger] loads@[j],
                forall|kk: int|
                    0 <= kk < k ==> block_listed(
                        loads@,
                        dweller_chunk_x(#[trigger] dwellers@[kk]),
                        dweller_chunk_y(dwellers@[kk]),
                    ),
                forall|i: int, j: int|
                    -1 <= i < di && -1 <= j <= 1 ==> #[trigger] off_listed(
                        loads@,
                        chx as int,
                        chy as int,
                        i,
                        j,
                    ),
            decreases 2 - di,
        {
            let mut dj: i64 = -1;
            while dj <= 1
                invariant
                    n == dwellers@.len(),
                    k < n,
                    forall|kk: int| 0 <= kk < n ==> (#[trigger] dwellers@[kk]).wf(),
                    -1 <= di <= 1,
                    -1 <= dj <= 2,
                    chx as int == dweller_chunk_x(dwellers@[k as int]),
                    chy as int == dweller_chunk_y(dwellers@[k as int]),
                    -0x80000 <= chx <= 0x80000 && -0x80000 <= chy <= 0x80000,
                    forall|i: int| 0 <= i < loads@.len() ==> load_near(dwellers@, #[trigger] loads@[i]),
                    forall|i: int, j: int|
                        0 <= i < j < loads@.len() ==> #[trigger] loads@[i] != #[trigger] loads@[j],
                    forall|kk: int|
                        0 <= kk < k ==> block_listed(
                            loads@,
                            dweller_chunk_x(#[trigger] dwellers@[kk]),
                            dweller_chunk_y(dwellers@[kk]),
                        ),
                    forall|i: int, j: int|
                        -1 <= i < di && -1 <= j <= 1 ==> #[trigger] off_listed(
                            loads@,
                            chx as int,
                            chy as int,
                            i,
                            j,
                        ),
                    forall|j: int|
                        -1 <= j < dj ==> #[trigger] off_listed(
                            loads@,
                            chx as int,
                            chy as int,
                            di as int,
                            j,
                        ),
                decreases 2 - dj,
            {
                let c = CellIndex { x: (chx as i64 + di) as i32, y: (chy as i64 + dj) as i32 };
                if !contains_cell(&loads, c) {
                    let ghost loads0 = loads@;
                    loads.push(c);
                    proof {
                        assert(loads@[loads@.len() - 1] == c);
                        assert(cheb(
                            c.x as int,
                            c.y as int,
                            dweller_chunk_x(dwellers@[k as int]),
                            dweller_chunk_y(dwellers@[k as int]),
                        ) <= 1);
                        assert(load_near(dwellers@, c));
                        assert forall|i: int|
                            0 <= i < loads@.len() implies load_near(
                            dwellers@,
                            #[trigger] loads@[i],
                        ) by {
                            if i < loads@.len() - 1 {
                                assert(loads@[i] == loads0[i]);
                            }
                        }
                        assert forall|i: int, j: int|
                            0 <= i < j < loads@.len() implies #[trigger] loads@[i]
                            != #[trigger] loads@[j] by {
                            if j < loads@.len() - 1 {
                                assert(loads@[i] == loads0[i] && loads@[j] == loads0[j]);
                            } else {
                                assert(loads@[i] == loads0[i]);
                                assert(!loads0.contains(c));
                            }
                        }
                        assert(loads@ == loads0.push(c));
                        assert forall|kk: int|
                            0 <= kk < k implies block_listed(
                            loads@,
                            dweller_chunk_x(#[trigger] dwellers@[kk]),
                            dweller_chunk_y(dwellers@[kk]),
                        ) by {
                            lemma_block_listed_push(
                                loads0,
                                c,
                                dweller_chunk_x(dwellers@[kk]),
                                dweller_chunk_y(dwellers@[kk]),
                            );
                        }
                        assert forall|i: int, j: int|
                            -1 <= i < di && -1 <= j <= 1 implies #[trigger] off_listed(
                            loads@,
                            chx as int,
                            chy as int,
                            i,
                            j,
                        ) by {
                            assert(off_listed(loads0, chx as int, chy as int, i, j));
                            lemma_listed_push(loads0, c, chx as int + i, chy as int + j);
                        }
                        assert forall|j: int|
                            -1 <= j < dj implies #[trigger] off_listed(
                            loads@,
                            chx as int,
                            chy as int,
                            di as int,
                            j,
                        ) by {
                            assert(off_listed(loads0, chx as int, chy as int, di as int, j));
                            lemma_listed_push(loads0, c, chx as int + di, chy as int + j);
                        }
                        assert(cell_listed(loads@, chx as int + di, chy as int + dj));
                        assert(off_listed(loads@, chx as int, chy as int, di as int, dj as int));
                    }
                } else {
                    proof {
                        let l = choose|l: int| 0 <= l < loads@.len() && loads@[l] == c;
                        assert((loads@[l]).x as int == chx as int + di && loads@[l].y as int
                            == chy as int + dj);
                        assert(cell_listed(loads@, chx as int + di, chy as int + dj));
                        assert(off_listed(loads@, chx as int, chy as int, di as int, dj as int));
                    }
                }
                dj = dj + 1;
            }
            di = di + 1;
        }
        proof {
            assert forall|i: int, j: int|
                -1 <= i <= 1 && -1 <= j <= 1 implies #[trigger] off_listed(
                loads@,
                dweller_chunk_x(dwellers@[k as int]),
                dweller_chunk_y(dwellers@[k as int]),
                i,
                j,
            ) by {
                assert(off_listed(loads@, chx as int, chy as int, i, j));
            }
            assert(block_listed(
                loads@,
                dweller_chunk_x(dwellers@[k as int]),
                dweller_chunk_y(dwellers@[k as int]),
            ));
        }
        k = k + 1;
    }
    proof {
        assert(loads_complete(dwellers@, loads@)) by {
            assert forall|k2: int, c: CellIndex|
                #![trigger dwellers@[k2], loads@.contains(c)]
                0 <= k2 < dwellers@.len() && cheb(
                    c.x as int,
                    c.y as int,
                    dweller_chunk_x(dwellers@[k2]),
                    dweller_chunk_y(dwellers@[k2]),
                ) <= LOAD_CHUNKS_RADIUS implies loads@.contains(c) by {
                let i = c.x as int - dweller_chunk_x(dwellers@[k2]);
                let j = c.y as int - dweller_chunk_y(dwellers@[k2]);
                assert(-1 <= i <= 1 && -1 <= j <= 1);
                assert(off_listed(
                    loads@,
                    dweller_chunk_x(dwellers@[k2]),
                    dweller_chunk_y(dwellers@[k2]),
                    i,
                    j,
                ));
                assert(cell_listed(
                    loads@,
                    dweller_chunk_x(dwellers@[k2]) + i,
                    dweller_chunk_y(dwellers@[k2]) + j,
                ));
                let l = choose|l: int|
                    0 <= l < loads@.len() && (#[trigger] loads@[l]).x as int == dweller_chunk_x(
                        dwellers@[k2],
                    ) + i && loads@[l].y as int == dweller_chunk_y(dwellers@[k2]) + j;
                assert(loads@[l] == c);
            }
        }
    }

    let mut unloads: Vec<CellIndex> = Vec::new();
    if n > 0 {
        let m = loaded_chunks.len();
        let mut j: usize = 0;
        while j < m
            invariant
                m == loaded_chunks@.len(),
                j <= m,
                forall|i: int|
                    0 <= i < unloads@.len() ==> loaded_chunks@.contains(#[trigger] unloads@[i])
                        && !loads@.contains(unloads@[i]),
                forall|jj: int|
                    0 <= jj < j && !loads@.contains(#[trigger] loaded_chunks@[jj])
                        ==> unloads@.contains(loaded_chunks@[jj]),
                forall|i: int, l: int|
                    0 <= i < l < unloads@.len() ==> #[trigger] unloads@[i] != #[trigger] unloads@[l],
            decreases m - j,
        {
            let c = loaded_chunks[j];
            let ghost un0 = unloads@;
            if !contains_cell(&loads, c) && !contains_cell(&unloads, c) {
                unloads.push(c);
                proof {
                    assert(loaded_chunks@[j as int] == c);
                    assert(loaded_chunks@.contains(c));
                    assert(unloads@[unloads@.len() - 1] == c);
                    assert forall|i: int|
                        0 <= i < unloads@.len() implies loaded_chunks@.contains(
                        #[trigger] unloads@[i],
                    ) && !loads@.contains(unloads@[i]) by {
                        if i < unloads@.len() - 1 {
                            assert(unloads@[i] == un0[i]);
                        }
                    }
                    assert forall|i: int, l: int|
                        0 <= i < l < unloads@.len() implies #[trigger] unloads@[i]
                        != #[trigger] unloads@[l] by {
                        if l < unloads@.len() - 1 {
                            assert(unloads@[i] == un0[i] && unloads@[l] == un0[l]);
                        } else {
                            assert(unloads@[i] == un0[i]);
                            assert(!un0.contains(c));
                        }
                    }
                }
            }
            proof {
                assert forall|jj: int|
                    0 <= jj < j + 1 && !loads@.contains(
                        #[trigger] loaded_chunks@[jj],
                    ) implies unloads@.contains(loaded_chunks@[jj]) by {
                    if jj < j {
                        let l = choose|l: int| 0 <= l < un0.len() && un0[l] == loaded_chunks@[jj];
                        assert(unloads@[l] == un0[l]);
                    } else {
                        if un0.contains(c) {
                            let l = choose|l: int| 0 <= l < un0.len() && un0[l] == c;
                            assert(unloads@[l] == un0[l]);
                        }
                    }
                }
            }
            j = j + 1;
        }
    }
    proof {
        if n == 0 {
            if loads@.len() > 0 {
                assert(load_near(dwellers@, loads@[0]));
                let kk = choose|kk: int|
                    0 <= kk < dwellers@.len() && cheb(
                        loads@[0].x as int,
                        loads@[0].y as int,
                        dweller_chunk_x(#[trigger] dwellers@[kk]),
                        dweller_chunk_y(dwellers@[kk]),
                    ) <= LOAD_CHUNKS_RADIUS;
                assert(false);
            }
            assert(loads@.len() == 0 && unloads@.len() == 0);
        }
    }
    (loads, unloads)
}

} // verus!
