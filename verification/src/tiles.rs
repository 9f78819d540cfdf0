//! Which neighbours of a cell lie in which neighbouring 4x4 tile.

use vstd::prelude::*;

verus! {

/// The neighbour cells of one cell that lie in one neighbouring tile: the tile's
/// offset `(tdx, tdy)` (in cells) and the first `count` cell positions inside it.
#[derive(Clone, Copy)]
pub struct TileNbrGroup {
    pub tdx: i16,
    pub tdy: i16,
    pub count: u8,
    pub cells: [(u8, u8); 3],
}

/// The out-of-tile neighbours of a cell, grouped by tile (`num_groups` groups).
#[derive(Clone, Copy)]
pub struct TileNbrInfo {
    pub num_groups: u8,
    pub groups: [TileNbrGroup; 3],
}

/// Cell `c` of group `g`, as a position relative to the cell's own tile origin.
pub open spec fn group_cell(info: TileNbrInfo, g: int, c: int) -> (int, int) {
    (
        info.groups[g].tdx as int + info.groups[g].cells[c].0 as int,
        info.groups[g].tdy as int + info.groups[g].cells[c].1 as int,
    )
}

/// Whether `(px, py)` (relative to the tile origin) is a neighbour of cell
/// `(mx, my)` of the tile that lies outside the tile.
pub open spec fn is_outside_neighbor(mx: int, my: int, px: int, py: int) -> bool {
    &&& -1 <= px - mx <= 1
    &&& -1 <= py - my <= 1
    &&& !(px == mx && py == my)
    &&& !(0 <= px < 4 && 0 <= py < 4)
}

/// The table entry lists exactly the out-of-tile neighbours of cell `(mx, my)`,
/// each once, grouped by the tile that holds it.
pub open spec fn tile_nbr_info_correct(info: TileNbrInfo, mx: int, my: int) -> bool {
    &&& info.num_groups <= 3
    &&& forall|g: int| 0 <= g < info.num_groups ==> {
        &&& 1 <= (#[trigger] info.groups[g]).count <= 3
        &&& (info.groups[g].tdx == -4 || info.groups[g].tdx == 0 || info.groups[g].tdx == 4)
        &&& (info.groups[g].tdy == -4 || info.groups[g].tdy == 0 || info.groups[g].tdy == 4)
        &&& !(info.groups[g].tdx == 0 && info.groups[g].tdy == 0)
        &&& forall|c: int| 0 <= c < info.groups[g].count ==> {
            &&& (#[trigger] info.groups[g].cells[c]).0 < 4
            &&& info.groups[g].cells[c].1 < 4
            &&& is_outside_neighbor(mx, my, group_cell(info, g, c).0, group_cell(info, g, c).1)
        }
    }
    &&& forall|g1: int, c1: int, g2: int, c2: int|
        0 <= g1 < info.num_groups && 0 <= c1 < info.groups[g1].count && 0 <= g2 < info.num_groups
            && 0 <= c2 < info.groups[g2].count && #[trigger] group_cell(info, g1, c1) == #[trigger] group_cell(
            info,
            g2,
            c2,
        ) ==> g1 == g2 && c1 == c2
    &&& forall|px: int, py: int|
        is_outside_neighbor(mx, my, px, py) ==> exists|g: int, c: int|
            0 <= g < info.num_groups && 0 <= c < info.groups[g].count && #[trigger] group_cell(info, g, c)
                == (px, py)
}

fn group_zero() -> (g: TileNbrGroup)
    ensures
        g.tdx == 0 && g.tdy == 0 && g.count == 0,
        g.cells[0] == (0u8, 0u8) && g.cells[1] == (0u8, 0u8) && g.cells[2] == (0u8, 0u8),
{
    TileNbrGroup { tdx: 0, tdy: 0, count: 0, cells: [(0, 0), (0, 0), (0, 0)] }
}

fn group(tdx: i16, tdy: i16, count: u8, c0: (u8, u8), c1: (u8, u8), c2: (u8, u8)) -> (g: TileNbrGroup)
    ensures
        g.tdx == tdx && g.tdy == tdy && g.count == count,
        g.cells[0] == c0 && g.cells[1] == c1 && g.cells[2] == c2,
{
    TileNbrGroup { tdx, tdy, count, cells: [c0, c1, c2] }
}

/// The out-of-tile neighbours of cell `(mx, my)` of a tile (`mx`, `my` in 0..4),
/// grouped by neighbouring tile.
pub fn tile_nbr_info(mx: u32, my: u32) -> (info: TileNbrInfo)
    requires
        mx < 4,
        my < 4,
    ensures
        tile_nbr_info_correct(info, mx as int, my as int),
{
    let z = group_zero();
    if mx == 0 && my == 0 {
        let info = TileNbrInfo { num_groups: 3, groups: [group(-4, -4, 1, (3, 3), (0, 0), (0, 0)), group(-4, 0, 2, (3, 0), (3, 1), (0, 0)), group(0, -4, 2, (0, 3), (1, 3), (0, 0))] };
        proof {
            assert forall|g: int| 0 <= g < info.num_groups implies {
                &&& 1 <= (#[trigger] info.groups[g]).count <= 3
                &&& (info.groups[g].tdx == -4 || info.groups[g].tdx == 0 || info.groups[g].tdx == 4)
                &&& (info.groups[g].tdy == -4 || info.groups[g].tdy == 0 || info.groups[g].tdy == 4)
                &&& !(info.groups[g].tdx == 0 && info.groups[g].tdy == 0)
                &&& forall|c: int| 0 <= c < info.groups[g].count ==> {
                    &&& (#[trigger] info.groups[g].cells[c]).0 < 4
                    &&& info.groups[g].cells[c].1 < 4
                    &&& is_outside_neighbor(mx as int, my as int, group_cell(info, g, c).0, group_cell(info, g, c).1)
                }
            } by {
                if g == 0 {
                    assert forall|c: int| 0 <= c < info.groups[g].count implies {
                        &&& (#[trigger] info.groups[g].cells[c]).0 < 4
                        &&& info.groups[g].cells[c].1 < 4
                        &&& is_outside_neighbor(mx as int, my as int, group_cell(info, g, c).0, group_cell(info, g, c).1)
                    } by {
                        if c == 0 {
                        }
                    }
                } else if g == 1 {
                    assert forall|c: int| 0 <= c < info.groups[g].count implies {
                        &&& (#[trigger] info.groups[g].cells[c]).0 < 4
                        &&& info.groups[g].cells[c].1 < 4
                        &&& is_outside_neighbor(mx as int, my as int, group_cell(info, g, c).0, group_cell(info, g, c).1)
                    } by {
                        if c == 0 {
                        } else if c == 1 {
                        }
                    }
                } else if g == 2 {
                    assert forall|c: int| 0 <= c < info.groups[g].count implies {
                        &&& (#[trigger] info.groups[g].cells[c]).0 < 4
                        &&& info.groups[g].cells[c].1 < 4
                        &&& is_outside_neighbor(mx as int, my as int, group_cell(info, g, c).0, group_cell(info, g, c).1)
                    } by {
                        if c == 0 {
                        } else if c == 1 {
                        }
                    }
                }
            }
            assert forall|g1: int, c1: int, g2: int, c2: int|
                0 <= g1 < info.num_groups && 0 <= c1 < info.groups[g1].count && 0 <= g2 < info.num_groups
                    && 0 <= c2 < info.groups[g2].count && #[trigger] group_cell(info, g1, c1) == #[trigger] group_cell(info, g2, c2)
                implies g1 == g2 && c1 == c2 by {
                if g1 == 0 && c1 == 0 {
                    if g2 == 0 && c2 == 0 {
                    } else if g2 == 1 && c2 == 0 {
                    } else if g2 == 1 && c2 == 1 {
                    } else if g2 == 2 && c2 == 0 {
                    } else if g2 == 2 && c2 == 1 {
                    }
                } else if g1 == 1 && c1 == 0 {
                    if g2 == 0 && c2 == 0 {
                    } else if g2 == 1 && c2 == 0 {
                    } else if g2 == 1 && c2 == 1 {
                    } else if g2 == 2 && c2 == 0 {
                    } else if g2 == 2 && c2 == 1 {
                    }
                } else if g1 == 1 && c1 == 1 {
                    if g2 == 0 && c2 == 0 {
                    } else if g2 == 1 && c2 == 0 {
                    } else if g2 == 1 && c2 == 1 {
                    } else if g2 == 2 && c2 == 0 {
                    } else if g2 == 2 && c2 == 1 {
                    }
                } else if g1 == 2 && c1 == 0 {
                    if g2 == 0 && c2 == 0 {
                    } else if g2 == 1 && c2 == 0 {
                    } else if g2 == 1 && c2 == 1 {
                    } else if g2 == 2 && c2 == 0 {
                    } else if g2 == 2 && c2 == 1 {
                    }
                } else if g1 == 2 && c1 == 1 {
                    if g2 == 0 && c2 == 0 {
                    } else if g2 == 1 && c2 == 0 {
                    } else if g2 == 1 && c2 == 1 {
                    } else if g2 == 2 && c2 == 0 {
                    } else if g2 == 2 && c2 == 1 {
                    }
                }
            }
            assert forall|px: int, py: int| is_outside_neighbor(mx as int, my as int, px, py) implies exists|g: int, c: int|
                0 <= g < info.num_groups && 0 <= c < info.groups[g].count && #[trigger] group_cell(info, g, c) == (px, py) by {
                if px == -1 && py == -1 {
                    assert(group_cell(info, 0, 0) == (px, py));
                } else if px == -1 && py == 0 {
                    assert(group_cell(info, 1, 0) == (px, py));
                } else if px == -1 && py == 1 {
                    assert(group_cell(info, 1, 1) == (px, py));
                } else if px == 0 && py == -1 {
                    assert(group_cell(info, 2, 0) == (px, py));
                } else if px == 1 && py == -1 {
                    assert(group_cell(info, 2, 1) == (px, py));
                }
            }
        }
        info
    } else if mx == 0 && my == 1 {
        let info = TileNbrInfo { num_groups: 1, groups: [group(-4, 0, 3, (3, 0), (3, 1), (3, 2)), z, z] };
        proof {
            assert forall|g: int| 0 <= g < info.num_groups implies {
                &&& 1 <= (#[trigger] info.groups[g]).count <= 3
                &&& (info.groups[g].tdx == -4 || info.groups[g].tdx == 0 || info.groups[g].tdx == 4)
                &&& (info.groups[g].tdy == -4 || info.groups[g].tdy == 0 || info.groups[g].tdy == 4)
                &&& !(info.groups[g].tdx == 0 && info.groups[g].tdy == 0)
                &&& forall|c: int| 0 <= c < info.groups[g].count ==> {
                    &&& (#[trigger] info.groups[g].cells[c]).0 < 4
                    &&& info.groups[g].cells[c].1 < 4
                    &&& is_outside_neighbor(mx as int, my as int, group_cell(info, g, c).0, group_cell(info, g, c).1)
                }
            } by {
                if g == 0 {
                    assert forall|c: int| 0 <= c < info.groups[g].count implies {
                        &&& (#[trigger] info.groups[g].cells[c]).0 < 4
                        &&& info.groups[g].cells[c].1 < 4
                        &&& is_outside_neighbor(mx as int, my as int, group_cell(info, g, c).0, group_cell(info, g, c).1)
                    } by {
                        if c == 0 {
                        } else if c == 1 {
                        } else if c == 2 {
                        }
                    }
                }
            }
            assert forall|g1: int, c1: int, g2: int, c2: int|
                0 <= g1 < info.num_groups && 0 <= c1 < info.groups[g1].count && 0 <= g2 < info.num_groups
                    && 0 <= c2 < info.groups[g2].count && #[trigger] group_cell(info, g1, c1) == #[trigger] group_cell(info, g2, c2)
                implies g1 == g2 && c1 == c2 by {
                if g1 == 0 && c1 == 0 {
                    if g2 == 0 && c2 == 0 {
                    } else if g2 == 0 && c2 == 1 {
                    } else if g2 == 0 && c2 == 2 {
                    }
                } else if g1 == 0 && c1 == 1 {
                    if g2 == 0 && c2 == 0 {
                    } else if g2 == 0 && c2 == 1 {
                    } else if g2 == 0 && c2 == 2 {
                    }
                } else if g1 == 0 && c1 == 2 {
                    if g2 == 0 && c2 == 0 {
                    } else if g2 == 0 && c2 == 1 {
                    } else if g2 == 0 && c2 == 2 {
                    }
                }
            }
            assert forall|px: int, py: int| is_outside_neighbor(mx as int, my as int, px, py) implies exists|g: int, c: int|
                0 <= g < info.num_groups && 0 <= c < info.groups[g].count && #[trigger] group_cell(info, g, c) == (px, py) by {
                if px == -1 && py == 0 {
                    assert(group_cell(info, 0, 0) == (px, py));
                } else if px == -1 && py == 1 {
                    assert(group_cell(info, 0, 1) == (px, py));
                } else if px == -1 && py == 2 {
                    assert(group_cell(info, 0, 2) == (px, py));
                }
            }
        }
        info
    } else if mx == 0 && my == 2 {
        let info = TileNbrInfo { num_groups: 1, groups: [group(-4, 0, 3, (3, 1), (3, 2), (3, 3)), z, z] };
        proof {
            assert forall|g: int| 0 <= g < info.num_groups implies {
                &&& 1 <= (#[trigger] info.groups[g]).count <= 3
                &&& (info.groups[g].tdx == -4 || info.groups[g].tdx == 0 || info.groups[g].tdx == 4)
                &&& (info.groups[g].tdy == -4 || info.groups[g].tdy == 0 || info.groups[g].tdy == 4)
                &&& !(info.groups[g].tdx == 0 && info.groups[g].tdy == 0)
                &&& forall|c: int| 0 <= c < info.groups[g].count ==> {
                    &&& (#[trigger] info.groups[g].cells[c]).0 < 4
                    &&& info.groups[g].cells[c].1 < 4
                    &&& is_outside_neighbor(mx as int, my as int, group_cell(info, g, c).0, group_cell(info, g, c).1)
                }
            } by {
                if g == 0 {
                    assert forall|c: int| 0 <= c < info.groups[g].count implies {
                        &&& (#[trigger] info.groups[g].cells[c]).0 < 4
                        &&& info.groups[g].cells[c].1 < 4
                        &&& is_outside_neighbor(mx as int, my as int, group_cell(info, g, c).0, group_cell(info, g, c).1)
                    } by {
                        if c == 0 {
                        } else if c == 1 {
                        } else if c == 2 {
                        }
                    }
                }
            }
            assert forall|g1: int, c1: int, g2: int, c2: int|
                0 <= g1 < info.num_groups && 0 <= c1 < info.groups[g1].count && 0 <= g2 < info.num_groups
                    && 0 <= c2 < info.groups[g2].count && #[trigger] group_cell(info, g1, c1) == #[trigger] group_cell(info, g2, c2)
                implies g1 == g2 && c1 == c2 by {
                if g1 == 0 && c1 == 0 {
                    if g2 == 0 && c2 == 0 {
                    } else if g2 == 0 && c2 == 1 {
                    } else if g2 == 0 && c2 == 2 {
                    }
                } else if g1 == 0 && c1 == 1 {
                    if g2 == 0 && c2 == 0 {
                    } else if g2 == 0 && c2 == 1 {
                    } else if g2 == 0 && c2 == 2 {
                    }
                } else if g1 == 0 && c1 == 2 {
                    if g2 == 0 && c2 == 0 {
                    } else if g2 == 0 && c2 == 1 {
                    } else if g2 == 0 && c2 == 2 {
                    }
                }
            }
            assert forall|px: int, py: int| is_outside_neighbor(mx as int, my as int, px, py) implies exists|g: int, c: int|
                0 <= g < info.num_groups && 0 <= c < info.groups[g].count && #[trigger] group_cell(info, g, c) == (px, py) by {
                if px == -1 && py == 1 {
                    assert(group_cell(info, 0, 0) == (px, py));
                } else if px == -1 && py == 2 {
                    assert(group_cell(info, 0, 1) == (px, py));
                } else if px == -1 && py == 3 {
                    assert(group_cell(info, 0, 2) == (px, py));
                }
            }
        }
        info
    } else if mx == 0 && my == 3 {
        let info = TileNbrInfo { num_groups: 3, groups: [group(-4, 0, 2, (3, 2), (3, 3), (0, 0)), group(-4, 4, 1, (3, 0), (0, 0), (0, 0)), group(0, 4, 2, (0, 0), (1, 0), (0, 0))] };
        proof {
            assert forall|g: int| 0 <= g < info.num_groups implies {
                &&& 1 <= (#[trigger] info.groups[g]).count <= 3
                &&& (info.groups[g].tdx == -4 || info.groups[g].tdx == 0 || info.groups[g].tdx == 4)
                &&& (info.groups[g].tdy == -4 || info.groups[g].tdy == 0 || info.groups[g].tdy == 4)
                &&& !(info.groups[g].tdx == 0 && info.groups[g].tdy == 0)
                &&& forall|c: int| 0 <= c < info.groups[g].count ==> {
                    &&& (#[trigger] info.groups[g].cells[c]).0 < 4
                    &&& info.groups[g].cells[c].1 < 4
                    &&& is_outside_neighbor(mx as int, my as int, group_cell(info, g, c).0, group_cell(info, g, c).1)
                }
            } by {
                if g == 0 {
                    assert forall|c: int| 0 <= c < info.groups[g].count implies {
                        &&& (#[trigger] info.groups[g].cells[c]).0 < 4
                        &&& info.groups[g].cells[c].1 < 4
                        &&& is_outside_neighbor(mx as int, my as int, group_cell(info, g, c).0, group_cell(info, g, c).1)
                    } by {
                        if c == 0 {
                        } else if c == 1 {
                        }
                    }
                } else if g == 1 {
                    assert forall|c: int| 0 <= c < info.groups[g].count implies {
                        &&& (#[trigger] info.groups[g].cells[c]).0 < 4
                        &&& info.groups[g].cells[c].1 < 4
                        &&& is_outside_neighbor(mx as int, my as int, group_cell(info, g, c).0, group_cell(info, g, c).1)
                    } by {
                        if c == 0 {
                        }
                    }
                } else if g == 2 {
                    assert forall|c: int| 0 <= c < info.groups[g].count implies {
                        &&& (#[trigger] info.groups[g].cells[c]).0 < 4
                        &&& info.groups[g].cells[c].1 < 4
                        &&& is_outside_neighbor(mx as int, my as int, group_cell(info, g, c).0, group_cell(info, g, c).1)
                    } by {
                        if c == 0 {
                        } else if c == 1 {
                        }
                    }
                }
            }
            assert forall|g1: int, c1: int, g2: int, c2: int|
                0 <= g1 < info.num_groups && 0 <= c1 < info.groups[g1].count && 0 <= g2 < info.num_groups
                    && 0 <= c2 < info.groups[g2].count && #[trigger] group_cell(info, g1, c1) == #[trigger] group_cell(info, g2, c2)
                implies g1 == g2 && c1 == c2 by {
                if g1 == 0 && c1 == 0 {
                    if g2 == 0 && c2 == 0 {
                    } else if g2 == 0 && c2 == 1 {
                    } else if g2 == 1 && c2 == 0 {
                    } else if g2 == 2 && c2 == 0 {
                    } else if g2 == 2 && c2 == 1 {
                    }
                } else if g1 == 0 && c1 == 1 {
                    if g2 == 0 && c2 == 0 {
                    } else if g2 == 0 && c2 == 1 {
                    } else if g2 == 1 && c2 == 0 {
                    } else if g2 == 2 && c2 == 0 {
                    } else if g2 == 2 && c2 == 1 {
                    }
                } else if g1 == 1 && c1 == 0 {
                    if g2 == 0 && c2 == 0 {
                    } else if g2 == 0 && c2 == 1 {
                    } else if g2 == 1 && c2 == 0 {
                    } else if g2 == 2 && c2 == 0 {
                    } else if g2 == 2 && c2 == 1 {
                    }
                } else if g1 == 2 && c1 == 0 {
                    if g2 == 0 && c2 == 0 {
                    } else if g2 == 0 && c2 == 1 {
                    } else if g2 == 1 && c2 == 0 {
                    } else if g2 == 2 && c2 == 0 {
                    } else if g2 == 2 && c2 == 1 {
                    }
                } else if g1 == 2 && c1 == 1 {
                    if g2 == 0 && c2 == 0 {
                    } else if g2 == 0 && c2 == 1 {
                    } else if g2 == 1 && c2 == 0 {
                    } else if g2 == 2 && c2 == 0 {
                    } else if g2 == 2 && c2 == 1 {
                    }
                }
            }
            assert forall|px: int, py: int| is_outside_neighbor(mx as int, my as int, px, py) implies exists|g: int, c: int|
                0 <= g < info.num_groups && 0 <= c < info.groups[g].count && #[trigger] group_cell(info, g, c) == (px, py) by {
                if px == -1 && py == 2 {
                    assert(group_cell(info, 0, 0) == (px, py));
                } else if px == -1 && py == 3 {
                    assert(group_cell(info, 0, 1) == (px, py));
                } else if px == -1 && py == 4 {
                    assert(group_cell(info, 1, 0) == (px, py));
                } else if px == 0 && py == 4 {
                    assert(group_cell(info, 2, 0) == (px, py));
                } else if px == 1 && py == 4 {
                    assert(group_cell(info, 2, 1) == (px, py));
                }
            }
        }
        info
    } else if mx == 1 && my == 0 {
        let info = TileNbrInfo { num_groups: 1, groups: [group(0, -4, 3, (0, 3), (1, 3), (2, 3)), z, z] };
        proof {
            assert forall|g: int| 0 <= g < info.num_groups implies {
                &&& 1 <= (#[trigger] info.groups[g]).count <= 3
                &&& (info.groups[g].tdx == -4 || info.groups[g].tdx == 0 || info.groups[g].tdx == 4)
                &&& (info.groups[g].tdy == -4 || info.groups[g].tdy == 0 || info.groups[g].tdy == 4)
                &&& !(info.groups[g].tdx == 0 && info.groups[g].tdy == 0)
                &&& forall|c: int| 0 <= c < info.groups[g].count ==> {
                    &&& (#[trigger] info.groups[g].cells[c]).0 < 4
                    &&& info.groups[g].cells[c].1 < 4
                    &&& is_outside_neighbor(mx as int, my as int, group_cell(info, g, c).0, group_cell(info, g, c).1)
                }
            } by {
                if g == 0 {
                    assert forall|c: int| 0 <= c < info.groups[g].count implies {
                        &&& (#[trigger] info.groups[g].cells[c]).0 < 4
                        &&& info.groups[g].cells[c].1 < 4
                        &&& is_outside_neighbor(mx as int, my as int, group_cell(info, g, c).0, group_cell(info, g, c).1)
                    } by {
                        if c == 0 {
                        } else if c == 1 {
                        } else if c == 2 {
                        }
                    }
                }
            }
            assert forall|g1: int, c1: int, g2: int, c2: int|
                0 <= g1 < info.num_groups && 0 <= c1 < info.groups[g1].count && 0 <= g2 < info.num_groups
                    && 0 <= c2 < info.groups[g2].count && #[trigger] group_cell(info, g1, c1) == #[trigger] group_cell(info, g2, c2)
                implies g1 == g2 && c1 == c2 by {
                if g1 == 0 && c1 == 0 {
                    if g2 == 0 && c2 == 0 {
                    } else if g2 == 0 && c2 == 1 {
                    } else if g2 == 0 && c2 == 2 {
                    }
                } else if g1 == 0 && c1 == 1 {
                    if g2 == 0 && c2 == 0 {
                    } else if g2 == 0 && c2 == 1 {
                    } else if g2 == 0 && c2 == 2 {
                    }
                } else if g1 == 0 && c1 == 2 {
                    if g2 == 0 && c2 == 0 {
                    } else if g2 == 0 && c2 == 1 {
                    } else if g2 == 0 && c2 == 2 {
                    }
                }
            }
            assert forall|px: int, py: int| is_outside_neighbor(mx as int, my as int, px, py) implies exists|g: int, c: int|
                0 <= g < info.num_groups && 0 <= c < info.groups[g].count && #[trigger] group_cell(info, g, c) == (px, py) by {
                if px == 0 && py == -1 {
                    assert(group_cell(info, 0, 0) == (px, py));
                } else if px == 1 && py == -1 {
                    assert(group_cell(info, 0, 1) == (px, py));
                } else if px == 2 && py == -1 {
                    assert(group_cell(info, 0, 2) == (px, py));
                }
            }
        }
        info
    } else if mx == 1 && my == 1 {
        let info = TileNbrInfo { num_groups: 0, groups: [z, z, z] };
        proof {
            assert forall|g: int| 0 <= g < info.num_groups implies {
                &&& 1 <= (#[trigger] info.groups[g]).count <= 3
                &&& (info.groups[g].tdx == -4 || info.groups[g].tdx == 0 || info.groups[g].tdx == 4)
                &&& (info.groups[g].tdy == -4 || info.groups[g].tdy == 0 || info.groups[g].tdy == 4)
                &&& !(info.groups[g].tdx == 0 && info.groups[g].tdy == 0)
                &&& forall|c: int| 0 <= c < info.groups[g].count ==> {
                    &&& (#[trigger] info.groups[g].cells[c]).0 < 4
                    &&& info.groups[g].cells[c].1 < 4
                    &&& is_outside_neighbor(mx as int, my as int, group_cell(info, g, c).0, group_cell(info, g, c).1)
                }
            } by {
            }
            assert forall|g1: int, c1: int, g2: int, c2: int|
                0 <= g1 < info.num_groups && 0 <= c1 < info.groups[g1].count && 0 <= g2 < info.num_groups
                    && 0 <= c2 < info.groups[g2].count && #[trigger] group_cell(info, g1, c1) == #[trigger] group_cell(info, g2, c2)
                implies g1 == g2 && c1 == c2 by {
            }
            assert forall|px: int, py: int| is_outside_neighbor(mx as int, my as int, px, py) implies exists|g: int, c: int|
                0 <= g < info.num_groups && 0 <= c < info.groups[g].count && #[trigger] group_cell(info, g, c) == (px, py) by {
            }
        }
        info
    } else if mx == 1 && my == 2 {
        let info = TileNbrInfo { num_groups: 0, groups: [z, z, z] };
        proof {
            assert forall|g: int| 0 <= g < info.num_groups implies {
                &&& 1 <= (#[trigger] info.groups[g]).count <= 3
                &&& (info.groups[g].tdx == -4 || info.groups[g].tdx == 0 || info.groups[g].tdx == 4)
                &&& (info.groups[g].tdy == -4 || info.groups[g].tdy == 0 || info.groups[g].tdy == 4)
                &&& !(info.groups[g].tdx == 0 && info.groups[g].tdy == 0)
                &&& forall|c: int| 0 <= c < info.groups[g].count ==> {
                    &&& (#[trigger] info.groups[g].cells[c]).0 < 4
                    &&& info.groups[g].cells[c].1 < 4
                    &&& is_outside_neighbor(mx as int, my as int, group_cell(info, g, c).0, group_cell(info, g, c).1)
                }
            } by {
            }
            assert forall|g1: int, c1: int, g2: int, c2: int|
                0 <= g1 < info.num_groups && 0 <= c1 < info.groups[g1].count && 0 <= g2 < info.num_groups
                    && 0 <= c2 < info.groups[g2].count && #[trigger] group_cell(info, g1, c1) == #[trigger] group_cell(info, g2, c2)
                implies g1 == g2 && c1 == c2 by {
            }
            assert forall|px: int, py: int| is_outside_neighbor(mx as int, my as int, px, py) implies exists|g: int, c: int|
                0 <= g < info.num_groups && 0 <= c < info.groups[g].count && #[trigger] group_cell(info, g, c) == (px, py) by {
            }
        }
        info
    } else if mx == 1 && my == 3 {
        let info = TileNbrInfo { num_groups: 1, groups: [group(0, 4, 3, (0, 0), (1, 0), (2, 0)), z, z] };
        proof {
            assert forall|g: int| 0 <= g < info.num_groups implies {
                &&& 1 <= (#[trigger] info.groups[g]).count <= 3
                &&& (info.groups[g].tdx == -4 || info.groups[g].tdx == 0 || info.groups[g].tdx == 4)
                &&& (info.groups[g].tdy == -4 || info.groups[g].tdy == 0 || info.groups[g].tdy == 4)
                &&& !(info.groups[g].tdx == 0 && info.groups[g].tdy == 0)
                &&& forall|c: int| 0 <= c < info.groups[g].count ==> {
                    &&& (#[trigger] info.groups[g].cells[c]).0 < 4
                    &&& info.groups[g].cells[c].1 < 4
                    &&& is_outside_neighbor(mx as int, my as int, group_cell(info, g, c).0, group_cell(info, g, c).1)
                }
            } by {
                if g == 0 {
                    assert forall|c: int| 0 <= c < info.groups[g].count implies {
                        &&& (#[trigger] info.groups[g].cells[c]).0 < 4
                        &&& info.groups[g].cells[c].1 < 4
                        &&& is_outside_neighbor(mx as int, my as int, group_cell(info, g, c).0, group_cell(info, g, c).1)
                    } by {
                        if c == 0 {
                        } else if c == 1 {
                        } else if c == 2 {
                        }
                    }
                }
            }
            assert forall|g1: int, c1: int, g2: int, c2: int|
                0 <= g1 < info.num_groups && 0 <= c1 < info.groups[g1].count && 0 <= g2 < info.num_groups
                    && 0 <= c2 < info.groups[g2].count && #[trigger] group_cell(info, g1, c1) == #[trigger] group_cell(info, g2, c2)
                implies g1 == g2 && c1 == c2 by {
                if g1 == 0 && c1 == 0 {
                    if g2 == 0 && c2 == 0 {
                    } else if g2 == 0 && c2 == 1 {
                    } else if g2 == 0 && c2 == 2 {
                    }
                } else if g1 == 0 && c1 == 1 {
                    if g2 == 0 && c2 == 0 {
                    } else if g2 == 0 && c2 == 1 {
                    } else if g2 == 0 && c2 == 2 {
                    }
                } else if g1 == 0 && c1 == 2 {
                    if g2 == 0 && c2 == 0 {
                    } else if g2 == 0 && c2 == 1 {
                    } else if g2 == 0 && c2 == 2 {
                    }
                }
            }
            assert forall|px: int, py: int| is_outside_neighbor(mx as int, my as int, px, py) implies exists|g: int, c: int|
                0 <= g < info.num_groups && 0 <= c < info.groups[g].count && #[trigger] group_cell(info, g, c) == (px, py) by {
                if px == 0 && py == 4 {
                    assert(group_cell(info, 0, 0) == (px, py));
                } else if px == 1 && py == 4 {
                    assert(group_cell(info, 0, 1) == (px, py));
                } else if px == 2 && py == 4 {
                    assert(group_cell(info, 0, 2) == (px, py));
                }
            }
        }
        info
    } else if mx == 2 && my == 0 {
        let info = TileNbrInfo { num_groups: 1, groups: [group(0, -4, 3, (1, 3), (2, 3), (3, 3)), z, z] };
        proof {
            assert forall|g: int| 0 <= g < info.num_groups implies {
                &&& 1 <= (#[trigger] info.groups[g]).count <= 3
                &&& (info.groups[g].tdx == -4 || info.groups[g].tdx == 0 || info.groups[g].tdx == 4)
                &&& (info.groups[g].tdy == -4 || info.groups[g].tdy == 0 || info.groups[g].tdy == 4)
                &&& !(info.groups[g].tdx == 0 && info.groups[g].tdy == 0)
                &&& forall|c: int| 0 <= c < info.groups[g].count ==> {
                    &&& (#[trigger] info.groups[g].cells[c]).0 < 4
                    &&& info.groups[g].cells[c].1 < 4
                    &&& is_outside_neighbor(mx as int, my as int, group_cell(info, g, c).0, group_cell(info, g, c).1)
                }
            } by {
                if g == 0 {
                    assert forall|c: int| 0 <= c < info.groups[g].count implies {
                        &&& (#[trigger] info.groups[g].cells[c]).0 < 4
                        &&& info.groups[g].cells[c].1 < 4
                        &&& is_outside_neighbor(mx as int, my as int, group_cell(info, g, c).0, group_cell(info, g, c).1)
                    } by {
                        if c == 0 {
                        } else if c == 1 {
                        } else if c == 2 {
                        }
                    }
                }
            }
            assert forall|g1: int, c1: int, g2: int, c2: int|
                0 <= g1 < info.num_groups && 0 <= c1 < info.groups[g1].count && 0 <= g2 < info.num_groups
                    && 0 <= c2 < info.groups[g2].count && #[trigger] group_cell(info, g1, c1) == #[trigger] group_cell(info, g2, c2)
                implies g1 == g2 && c1 == c2 by {
                if g1 == 0 && c1 == 0 {
                    if g2 == 0 && c2 == 0 {
                    } else if g2 == 0 && c2 == 1 {
                    } else if g2 == 0 && c2 == 2 {
                    }
                } else if g1 == 0 && c1 == 1 {
                    if g2 == 0 && c2 == 0 {
                    } else if g2 == 0 && c2 == 1 {
                    } else if g2 == 0 && c2 == 2 {
                    }
                } else if g1 == 0 && c1 == 2 {
                    if g2 == 0 && c2 == 0 {
                    } else if g2 == 0 && c2 == 1 {
                    } else if g2 == 0 && c2 == 2 {
                    }
                }
            }
            assert forall|px: int, py: int| is_outside_neighbor(mx as int, my as int, px, py) implies exists|g: int, c: int|
                0 <= g < info.num_groups && 0 <= c < info.groups[g].count && #[trigger] group_cell(info, g, c) == (px, py) by {
                if px == 1 && py == -1 {
                    assert(group_cell(info, 0, 0) == (px, py));
                } else if px == 2 && py == -1 {
                    assert(group_cell(info, 0, 1) == (px, py));
                } else if px == 3 && py == -1 {
                    assert(group_cell(info, 0, 2) == (px, py));
                }
            }
        }
        info
    } else if mx == 2 && my == 1 {
        let info = TileNbrInfo { num_groups: 0, groups: [z, z, z] };
        proof {
            assert forall|g: int| 0 <= g < info.num_groups implies {
                &&& 1 <= (#[trigger] info.groups[g]).count <= 3
                &&& (info.groups[g].tdx == -4 || info.groups[g].tdx == 0 || info.groups[g].tdx == 4)
                &&& (info.groups[g].tdy == -4 || info.groups[g].tdy == 0 || info.groups[g].tdy == 4)
                &&& !(info.groups[g].tdx == 0 && info.groups[g].tdy == 0)
                &&& forall|c: int| 0 <= c < info.groups[g].count ==> {
                    &&& (#[trigger] info.groups[g].cells[c]).0 < 4
                    &&& info.groups[g].cells[c].1 < 4
                    &&& is_outside_neighbor(mx as int, my as int, group_cell(info, g, c).0, group_cell(info, g, c).1)
                }
            } by {
            }
            assert forall|g1: int, c1: int, g2: int, c2: int|
                0 <= g1 < info.num_groups && 0 <= c1 < info.groups[g1].count && 0 <= g2 < info.num_groups
                    && 0 <= c2 < info.groups[g2].count && #[trigger] group_cell(info, g1, c1) == #[trigger] group_cell(info, g2, c2)
                implies g1 == g2 && c1 == c2 by {
            }
            assert forall|px: int, py: int| is_outside_neighbor(mx as int, my as int, px, py) implies exists|g: int, c: int|
                0 <= g < info.num_groups && 0 <= c < info.groups[g].count && #[trigger] group_cell(info, g, c) == (px, py) by {
            }
        }
        info
    } else if mx == 2 && my == 2 {
        let info = TileNbrInfo { num_groups: 0, groups: [z, z, z] };
        proof {
            assert forall|g: int| 0 <= g < info.num_groups implies {
                &&& 1 <= (#[trigger] info.groups[g]).count <= 3
                &&& (info.groups[g].tdx == -4 || info.groups[g].tdx == 0 || info.groups[g].tdx == 4)
                &&& (info.groups[g].tdy == -4 || info.groups[g].tdy == 0 || info.groups[g].tdy == 4)
                &&& !(info.groups[g].tdx == 0 && info.groups[g].tdy == 0)
                &&& forall|c: int| 0 <= c < info.groups[g].count ==> {
                    &&& (#[trigger] info.groups[g].cells[c]).0 < 4
                    &&& info.groups[g].cells[c].1 < 4
                    &&& is_outside_neighbor(mx as int, my as int, group_cell(info, g, c).0, group_cell(info, g, c).1)
                }
            } by {
            }
            assert forall|g1: int, c1: int, g2: int, c2: int|
                0 <= g1 < info.num_groups && 0 <= c1 < info.groups[g1].count && 0 <= g2 < info.num_groups
                    && 0 <= c2 < info.groups[g2].count && #[trigger] group_cell(info, g1, c1) == #[trigger] group_cell(info, g2, c2)
                implies g1 == g2 && c1 == c2 by {
            }
            assert forall|px: int, py: int| is_outside_neighbor(mx as int, my as int, px, py) implies exists|g: int, c: int|
                0 <= g < info.num_groups && 0 <= c < info.groups[g].count && #[trigger] group_cell(info, g, c) == (px, py) by {
            }
        }
        info
    } else if mx == 2 && my == 3 {
        let info = TileNbrInfo { num_groups: 1, groups: [group(0, 4, 3, (1, 0), (2, 0), (3, 0)), z, z] };
        proof {
            assert forall|g: int| 0 <= g < info.num_groups implies {
                &&& 1 <= (#[trigger] info.groups[g]).count <= 3
                &&& (info.groups[g].tdx == -4 || info.groups[g].tdx == 0 || info.groups[g].tdx == 4)
                &&& (info.groups[g].tdy == -4 || info.groups[g].tdy == 0 || info.groups[g].tdy == 4)
                &&& !(info.groups[g].tdx == 0 && info.groups[g].tdy == 0)
                &&& forall|c: int| 0 <= c < info.groups[g].count ==> {
                    &&& (#[trigger] info.groups[g].cells[c]).0 < 4
                    &&& info.groups[g].cells[c].1 < 4
                    &&& is_outside_neighbor(mx as int, my as int, group_cell(info, g, c).0, group_cell(info, g, c).1)
                }
            } by {
                if g == 0 {
                    assert forall|c: int| 0 <= c < info.groups[g].count implies {
                        &&& (#[trigger] info.groups[g].cells[c]).0 < 4
                        &&& info.groups[g].cells[c].1 < 4
                        &&& is_outside_neighbor(mx as int, my as int, group_cell(info, g, c).0, group_cell(info, g, c).1)
                    } by {
                        if c == 0 {
                        } else if c == 1 {
                        } else if c == 2 {
                        }
                    }
                }
            }
            assert forall|g1: int, c1: int, g2: int, c2: int|
                0 <= g1 < info.num_groups && 0 <= c1 < info.groups[g1].count && 0 <= g2 < info.num_groups
                    && 0 <= c2 < info.groups[g2].count && #[trigger] group_cell(info, g1, c1) == #[trigger] group_cell(info, g2, c2)
                implies g1 == g2 && c1 == c2 by {
                if g1 == 0 && c1 == 0 {
                    if g2 == 0 && c2 == 0 {
                    } else if g2 == 0 && c2 == 1 {
                    } else if g2 == 0 && c2 == 2 {
                    }
                } else if g1 == 0 && c1 == 1 {
                    if g2 == 0 && c2 == 0 {
                    } else if g2 == 0 && c2 == 1 {
                    } else if g2 == 0 && c2 == 2 {
                    }
                } else if g1 == 0 && c1 == 2 {
                    if g2 == 0 && c2 == 0 {
                    } else if g2 == 0 && c2 == 1 {
                    } else if g2 == 0 && c2 == 2 {
                    }
                }
            }
            assert forall|px: int, py: int| is_outside_neighbor(mx as int, my as int, px, py) implies exists|g: int, c: int|
                0 <= g < info.num_groups && 0 <= c < info.groups[g].count && #[trigger] group_cell(info, g, c) == (px, py) by {
                if px == 1 && py == 4 {
                    assert(group_cell(info, 0, 0) == (px, py));
                } else if px == 2 && py == 4 {
                    assert(group_cell(info, 0, 1) == (px, py));
                } else if px == 3 && py == 4 {
                    assert(group_cell(info, 0, 2) == (px, py));
                }
            }
        }
        info
    } else if mx == 3 && my == 0 {
        let info = TileNbrInfo { num_groups: 3, groups: [group(0, -4, 2, (2, 3), (3, 3), (0, 0)), group(4, -4, 1, (0, 3), (0, 0), (0, 0)), group(4, 0, 2, (0, 0), (0, 1), (0, 0))] };
        proof {
            assert forall|g: int| 0 <= g < info.num_groups implies {
                &&& 1 <= (#[trigger] info.groups[g]).count <= 3
                &&& (info.groups[g].tdx == -4 || info.groups[g].tdx == 0 || info.groups[g].tdx == 4)
                &&& (info.groups[g].tdy == -4 || info.groups[g].tdy == 0 || info.groups[g].tdy == 4)
                &&& !(info.groups[g].tdx == 0 && info.groups[g].tdy == 0)
                &&& forall|c: int| 0 <= c < info.groups[g].count ==> {
                    &&& (#[trigger] info.groups[g].cells[c]).0 < 4
                    &&& info.groups[g].cells[c].1 < 4
                    &&& is_outside_neighbor(mx as int, my as int, group_cell(info, g, c).0, group_cell(info, g, c).1)
                }
            } by {
                if g == 0 {
                    assert forall|c: int| 0 <= c < info.groups[g].count implies {
                        &&& (#[trigger] info.groups[g].cells[c]).0 < 4
                        &&& info.groups[g].cells[c].1 < 4
                        &&& is_outside_neighbor(mx as int, my as int, group_cell(info, g, c).0, group_cell(info, g, c).1)
                    } by {
                        if c == 0 {
                        } else if c == 1 {
                        }
                    }
                } else if g == 1 {
                    assert forall|c: int| 0 <= c < info.groups[g].count implies {
                        &&& (#[trigger] info.groups[g].cells[c]).0 < 4
                        &&& info.groups[g].cells[c].1 < 4
                        &&& is_outside_neighbor(mx as int, my as int, group_cell(info, g, c).0, group_cell(info, g, c).1)
                    } by {
                        if c == 0 {
                        }
                    }
                } else if g == 2 {
                    assert forall|c: int| 0 <= c < info.groups[g].count implies {
                        &&& (#[trigger] info.groups[g].cells[c]).0 < 4
                        &&& info.groups[g].cells[c].1 < 4
                        &&& is_outside_neighbor(mx as int, my as int, group_cell(info, g, c).0, group_cell(info, g, c).1)
                    } by {
                        if c == 0 {
                        } else if c == 1 {
                        }
                    }
                }
            }
            assert forall|g1: int, c1: int, g2: int, c2: int|
                0 <= g1 < info.num_groups && 0 <= c1 < info.groups[g1].count && 0 <= g2 < info.num_groups
                    && 0 <= c2 < info.groups[g2].count && #[trigger] group_cell(info, g1, c1) == #[trigger] group_cell(info, g2, c2)
                implies g1 == g2 && c1 == c2 by {
                if g1 == 0 && c1 == 0 {
                    if g2 == 0 && c2 == 0 {
                    } else if g2 == 0 && c2 == 1 {
                    } else if g2 == 1 && c2 == 0 {
                    } else if g2 == 2 && c2 == 0 {
                    } else if g2 == 2 && c2 == 1 {
                    }
                } else if g1 == 0 && c1 == 1 {
                    if g2 == 0 && c2 == 0 {
                    } else if g2 == 0 && c2 == 1 {
                    } else if g2 == 1 && c2 == 0 {
                    } else if g2 == 2 && c2 == 0 {
                    } else if g2 == 2 && c2 == 1 {
                    }
                } else if g1 == 1 && c1 == 0 {
                    if g2 == 0 && c2 == 0 {
                    } else if g2 == 0 && c2 == 1 {
                    } else if g2 == 1 && c2 == 0 {
                    } else if g2 == 2 && c2 == 0 {
                    } else if g2 == 2 && c2 == 1 {
                    }
                } else if g1 == 2 && c1 == 0 {
                    if g2 == 0 && c2 == 0 {
                    } else if g2 == 0 && c2 == 1 {
                    } else if g2 == 1 && c2 == 0 {
                    } else if g2 == 2 && c2 == 0 {
                    } else if g2 == 2 && c2 == 1 {
                    }
                } else if g1 == 2 && c1 == 1 {
                    if g2 == 0 && c2 == 0 {
                    } else if g2 == 0 && c2 == 1 {
                    } else if g2 == 1 && c2 == 0 {
                    } else if g2 == 2 && c2 == 0 {
                    } else if g2 == 2 && c2 == 1 {
                    }
                }
            }
            assert forall|px: int, py: int| is_outside_neighbor(mx as int, my as int, px, py) implies exists|g: int, c: int|
                0 <= g < info.num_groups && 0 <= c < info.groups[g].count && #[trigger] group_cell(info, g, c) == (px, py) by {
                if px == 2 && py == -1 {
                    assert(group_cell(info, 0, 0) == (px, py));
                } else if px == 3 && py == -1 {
                    assert(group_cell(info, 0, 1) == (px, py));
                } else if px == 4 && py == -1 {
                    assert(group_cell(info, 1, 0) == (px, py));
                } else if px == 4 && py == 0 {
                    assert(group_cell(info, 2, 0) == (px, py));
                } else if px == 4 && py == 1 {
                    assert(group_cell(info, 2, 1) == (px, py));
                }
            }
        }
        info
    } else if mx == 3 && my == 1 {
        let info = TileNbrInfo { num_groups: 1, groups: [group(4, 0, 3, (0, 0), (0, 1), (0, 2)), z, z] };
        proof {
            assert forall|g: int| 0 <= g < info.num_groups implies {
                &&& 1 <= (#[trigger] info.groups[g]).count <= 3
                &&& (info.groups[g].tdx == -4 || info.groups[g].tdx == 0 || info.groups[g].tdx == 4)
                &&& (info.groups[g].tdy == -4 || info.groups[g].tdy == 0 || info.groups[g].tdy == 4)
                &&& !(info.groups[g].tdx == 0 && info.groups[g].tdy == 0)
                &&& forall|c: int| 0 <= c < info.groups[g].count ==> {
                    &&& (#[trigger] info.groups[g].cells[c]).0 < 4
                    &&& info.groups[g].cells[c].1 < 4
                    &&& is_outside_neighbor(mx as int, my as int, group_cell(info, g, c).0, group_cell(info, g, c).1)
                }
            } by {
                if g == 0 {
                    assert forall|c: int| 0 <= c < info.groups[g].count implies {
                        &&& (#[trigger] info.groups[g].cells[c]).0 < 4
                        &&& info.groups[g].cells[c].1 < 4
                        &&& is_outside_neighbor(mx as int, my as int, group_cell(info, g, c).0, group_cell(info, g, c).1)
                    } by {
                        if c == 0 {
                        } else if c == 1 {
                        } else if c == 2 {
                        }
                    }
                }
            }
            assert forall|g1: int, c1: int, g2: int, c2: int|
                0 <= g1 < info.num_groups && 0 <= c1 < info.groups[g1].count && 0 <= g2 < info.num_groups
                    && 0 <= c2 < info.groups[g2].count && #[trigger] group_cell(info, g1, c1) == #[trigger] group_cell(info, g2, c2)
                implies g1 == g2 && c1 == c2 by {
                if g1 == 0 && c1 == 0 {
                    if g2 == 0 && c2 == 0 {
                    } else if g2 == 0 && c2 == 1 {
                    } else if g2 == 0 && c2 == 2 {
                    }
                } else if g1 == 0 && c1 == 1 {
                    if g2 == 0 && c2 == 0 {
                    } else if g2 == 0 && c2 == 1 {
                    } else if g2 == 0 && c2 == 2 {
                    }
                } else if g1 == 0 && c1 == 2 {
                    if g2 == 0 && c2 == 0 {
                    } else if g2 == 0 && c2 == 1 {
                    } else if g2 == 0 && c2 == 2 {
                    }
                }
            }
            assert forall|px: int, py: int| is_outside_neighbor(mx as int, my as int, px, py) implies exists|g: int, c: int|
                0 <= g < info.num_groups && 0 <= c < info.groups[g].count && #[trigger] group_cell(info, g, c) == (px, py) by {
                if px == 4 && py == 0 {
                    assert(group_cell(info, 0, 0) == (px, py));
                } else if px == 4 && py == 1 {
                    assert(group_cell(info, 0, 1) == (px, py));
                } else if px == 4 && py == 2 {
                    assert(group_cell(info, 0, 2) == (px, py));
                }
            }
        }
        info
    } else if mx == 3 && my == 2 {
        let info = TileNbrInfo { num_groups: 1, groups: [group(4, 0, 3, (0, 1), (0, 2), (0, 3)), z, z] };
        proof {
            assert forall|g: int| 0 <= g < info.num_groups implies {
                &&& 1 <= (#[trigger] info.groups[g]).count <= 3
                &&& (info.groups[g].tdx == -4 || info.groups[g].tdx == 0 || info.groups[g].tdx == 4)
                &&& (info.groups[g].tdy == -4 || info.groups[g].tdy == 0 || info.groups[g].tdy == 4)
                &&& !(info.groups[g].tdx == 0 && info.groups[g].tdy == 0)
                &&& forall|c: int| 0 <= c < info.groups[g].count ==> {
                    &&& (#[trigger] info.groups[g].cells[c]).0 < 4
                    &&& info.groups[g].cells[c].1 < 4
                    &&& is_outside_neighbor(mx as int, my as int, group_cell(info, g, c).0, group_cell(info, g, c).1)
                }
            } by {
                if g == 0 {
                    assert forall|c: int| 0 <= c < info.groups[g].count implies {
                        &&& (#[trigger] info.groups[g].cells[c]).0 < 4
                        &&& info.groups[g].cells[c].1 < 4
                        &&& is_outside_neighbor(mx as int, my as int, group_cell(info, g, c).0, group_cell(info, g, c).1)
                    } by {
                        if c == 0 {
                        } else if c == 1 {
                        } else if c == 2 {
                        }
                    }
                }
            }
            assert forall|g1: int, c1: int, g2: int, c2: int|
                0 <= g1 < info.num_groups && 0 <= c1 < info.groups[g1].count && 0 <= g2 < info.num_groups
                    && 0 <= c2 < info.groups[g2].count && #[trigger] group_cell(info, g1, c1) == #[trigger] group_cell(info, g2, c2)
                implies g1 == g2 && c1 == c2 by {
                if g1 == 0 && c1 == 0 {
                    if g2 == 0 && c2 == 0 {
                    } else if g2 == 0 && c2 == 1 {
                    } else if g2 == 0 && c2 == 2 {
                    }
                } else if g1 == 0 && c1 == 1 {
                    if g2 == 0 && c2 == 0 {
                    } else if g2 == 0 && c2 == 1 {
                    } else if g2 == 0 && c2 == 2 {
                    }
                } else if g1 == 0 && c1 == 2 {
                    if g2 == 0 && c2 == 0 {
                    } else if g2 == 0 && c2 == 1 {
                    } else if g2 == 0 && c2 == 2 {
                    }
                }
            }
            assert forall|px: int, py: int| is_outside_neighbor(mx as int, my as int, px, py) implies exists|g: int, c: int|
                0 <= g < info.num_groups && 0 <= c < info.groups[g].count && #[trigger] group_cell(info, g, c) == (px, py) by {
                if px == 4 && py == 1 {
                    assert(group_cell(info, 0, 0) == (px, py));
                } else if px == 4 && py == 2 {
                    assert(group_cell(info, 0, 1) == (px, py));
                } else if px == 4 && py == 3 {
                    assert(group_cell(info, 0, 2) == (px, py));
                }
            }
        }
        info
    } else if mx == 3 && my == 3 {
        let info = TileNbrInfo { num_groups: 3, groups: [group(0, 4, 2, (2, 0), (3, 0), (0, 0)), group(4, 0, 2, (0, 2), (0, 3), (0, 0)), group(4, 4, 1, (0, 0), (0, 0), (0, 0))] };
        proof {
            assert forall|g: int| 0 <= g < info.num_groups implies {
                &&& 1 <= (#[trigger] info.groups[g]).count <= 3
                &&& (info.groups[g].tdx == -4 || info.groups[g].tdx == 0 || info.groups[g].tdx == 4)
                &&& (info.groups[g].tdy == -4 || info.groups[g].tdy == 0 || info.groups[g].tdy == 4)
                &&& !(info.groups[g].tdx == 0 && info.groups[g].tdy == 0)
                &&& forall|c: int| 0 <= c < info.groups[g].count ==> {
                    &&& (#[trigger] info.groups[g].cells[c]).0 < 4
                    &&& info.groups[g].cells[c].1 < 4
                    &&& is_outside_neighbor(mx as int, my as int, group_cell(info, g, c).0, group_cell(info, g, c).1)
                }
            } by {
                if g == 0 {
                    assert forall|c: int| 0 <= c < info.groups[g].count implies {
                        &&& (#[trigger] info.groups[g].cells[c]).0 < 4
                        &&& info.groups[g].cells[c].1 < 4
                        &&& is_outside_neighbor(mx as int, my as int, group_cell(info, g, c).0, group_cell(info, g, c).1)
                    } by {
                        if c == 0 {
                        } else if c == 1 {
                        }
                    }
                } else if g == 1 {
                    assert forall|c: int| 0 <= c < info.groups[g].count implies {
                        &&& (#[trigger] info.groups[g].cells[c]).0 < 4
                        &&& info.groups[g].cells[c].1 < 4
                        &&& is_outside_neighbor(mx as int, my as int, group_cell(info, g, c).0, group_cell(info, g, c).1)
                    } by {
                        if c == 0 {
                        } else if c == 1 {
                        }
                    }
                } else if g == 2 {
                    assert forall|c: int| 0 <= c < info.groups[g].count implies {
                        &&& (#[trigger] info.groups[g].cells[c]).0 < 4
                        &&& info.groups[g].cells[c].1 < 4
                        &&& is_outside_neighbor(mx as int, my as int, group_cell(info, g, c).0, group_cell(info, g, c).1)
                    } by {
                        if c == 0 {
                        }
                    }
                }
            }
            assert forall|g1: int, c1: int, g2: int, c2: int|
                0 <= g1 < info.num_groups && 0 <= c1 < info.groups[g1].count && 0 <= g2 < info.num_groups
                    && 0 <= c2 < info.groups[g2].count && #[trigger] group_cell(info, g1, c1) == #[trigger] group_cell(info, g2, c2)
                implies g1 == g2 && c1 == c2 by {
                if g1 == 0 && c1 == 0 {
                    if g2 == 0 && c2 == 0 {
                    } else if g2 == 0 && c2 == 1 {
                    } else if g2 == 1 && c2 == 0 {
                    } else if g2 == 1 && c2 == 1 {
                    } else if g2 == 2 && c2 == 0 {
                    }
                } else if g1 == 0 && c1 == 1 {
                    if g2 == 0 && c2 == 0 {
                    } else if g2 == 0 && c2 == 1 {
                    } else if g2 == 1 && c2 == 0 {
                    } else if g2 == 1 && c2 == 1 {
                    } else if g2 == 2 && c2 == 0 {
                    }
                } else if g1 == 1 && c1 == 0 {
                    if g2 == 0 && c2 == 0 {
                    } else if g2 == 0 && c2 == 1 {
                    } else if g2 == 1 && c2 == 0 {
                    } else if g2 == 1 && c2 == 1 {
                    } else if g2 == 2 && c2 == 0 {
                    }
                } else if g1 == 1 && c1 == 1 {
                    if g2 == 0 && c2 == 0 {
                    } else if g2 == 0 && c2 == 1 {
                    } else if g2 == 1 && c2 == 0 {
                    } else if g2 == 1 && c2 == 1 {
                    } else if g2 == 2 && c2 == 0 {
                    }
                } else if g1 == 2 && c1 == 0 {
                    if g2 == 0 && c2 == 0 {
                    } else if g2 == 0 && c2 == 1 {
                    } else if g2 == 1 && c2 == 0 {
                    } else if g2 == 1 && c2 == 1 {
                    } else if g2 == 2 && c2 == 0 {
                    }
                }
            }
            assert forall|px: int, py: int| is_outside_neighbor(mx as int, my as int, px, py) implies exists|g: int, c: int|
                0 <= g < info.num_groups && 0 <= c < info.groups[g].count && #[trigger] group_cell(info, g, c) == (px, py) by {
                if px == 2 && py == 4 {
                    assert(group_cell(info, 0, 0) == (px, py));
                } else if px == 3 && py == 4 {
                    assert(group_cell(info, 0, 1) == (px, py));
                } else if px == 4 && py == 2 {
                    assert(group_cell(info, 1, 0) == (px, py));
                } else if px == 4 && py == 3 {
                    assert(group_cell(info, 1, 1) == (px, py));
                } else if px == 4 && py == 4 {
                    assert(group_cell(info, 2, 0) == (px, py));
                }
            }
        }
        info
    } else {
        proof { assert(false); }
        TileNbrInfo { num_groups: 0, groups: [z, z, z] }
    }
}

} // verus!
