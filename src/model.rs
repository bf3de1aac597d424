use vstd::prelude::*;

verus! {

/// The terrain that a side of a tile shows.
#[derive(Clone, Copy, Debug, PartialEq, Eq, Structural, Hash)]
pub enum TerrainType {
    ROAD,
    FIELD,
    TOWN,
}

/// One of the four sides of a tile; also used as a rotation amount
/// (LEFT = 0, TOP = 1, RIGHT = 2, BOTTOM = 3 quarter turns).
#[derive(Clone, Copy, Debug, PartialEq, Eq, Structural, Hash)]
pub enum CardSide {
    LEFT,
    TOP,
    RIGHT,
    BOTTOM,
}

/// A grid position.
#[derive(Clone, Copy, Debug, PartialEq, Eq, Structural, Hash)]
pub struct Pos {
    pub x: usize,
    pub y: usize,
}

/// A named terrain feature of a tile template, occupying some tile-local sides.
#[derive(Debug, PartialEq, Eq, Hash)]
pub struct Struct {
    pub terrain: TerrainType,
    pub sides: Vec<CardSide>,
    pub value: usize,
}

/// A tile template: its structures, a monastery flag and the name of its picture.
#[derive(Debug, PartialEq, Eq, Hash)]
pub struct Card {
    pub structs: Vec<Struct>,
    pub monastery: bool,
    pub pic: String,
}

/// A tile template placed at a position with an orientation.
#[derive(Debug, PartialEq, Eq, Hash)]
pub struct Cell {
    pub pos: Pos,
    pub card: Card,
    pub card_side: CardSide,
}

/// A width × height grid; each place holds at most one placement.
#[derive(Debug)]
pub struct Board {
    pub width: usize,
    pub height: usize,
    pub cells: Vec<Vec<Option<Cell>>>,
}

/// What a structure is, as a mathematical value.
pub struct StructView {
    pub terrain: TerrainType,
    pub sides: Seq<CardSide>,
    pub value: usize,
}

/// What a tile template is, as a mathematical value.
pub struct CardView {
    pub structs: Seq<StructView>,
    pub monastery: bool,
    pub pic: Seq<char>,
}

/// What a placement is, as a mathematical value.
pub struct CellView {
    pub pos: Pos,
    pub card: CardView,
    pub card_side: CardSide,
}

impl View for Struct {
    type V = StructView;

    open spec fn view(&self) -> StructView {
        StructView { terrain: self.terrain, sides: self.sides@, value: self.value }
    }
}

impl View for Card {
    type V = CardView;

    open spec fn view(&self) -> CardView {
        CardView {
            structs: self.structs@.map_values(|s: Struct| s@),
            monastery: self.monastery,
            pic: self.pic@,
        }
    }
}

impl View for Cell {
    type V = CellView;

    open spec fn view(&self) -> CellView {
        CellView { pos: self.pos, card: self.card@, card_side: self.card_side }
    }
}

/// What a board is, as a mathematical value.
pub struct BoardView {
    pub width: int,
    pub height: int,
    pub cells: Seq<Seq<Option<CellView>>>,
}

impl BoardView {
    /// What stands at (x, y): nothing off the board.
    pub open spec fn at(self, x: int, y: int) -> Option<CellView> {
        if 0 <= x < self.width && 0 <= y < self.height {
            self.cells[x][y]
        } else {
            None
        }
    }

    pub open spec fn occupied(self, x: int, y: int) -> bool {
        self.at(x, y) is Some
    }

    pub open spec fn in_bounds(self, x: int, y: int) -> bool {
        0 <= x < self.width && 0 <= y < self.height
    }

    /// Shape of the grid, each placement standing at its own position, and a
    /// size that a board held in memory cannot exceed.
    pub open spec fn wf(self) -> bool {
        &&& self.width >= 1
        &&& self.height >= 1
        &&& self.width * self.height <= usize::MAX / 16
        &&& self.cells.len() == self.width
        &&& forall|x: int| 0 <= x < self.width ==> #[trigger] self.cells[x].len() == self.height
        &&& forall|x: int, y: int|
            #[trigger] self.occupied(x, y) ==> self.at(x, y)->0.pos == Pos { x: x as usize, y: y as usize }
    }
}

impl View for Board {
    type V = BoardView;

    open spec fn view(&self) -> BoardView {
        BoardView {
            width: self.width as int,
            height: self.height as int,
            cells: self.cells@.map_values(
                |col: Vec<Option<Cell>>| col@.map_values(|c: Option<Cell>| opt_view(c)),
            ),
        }
    }
}

/// The last of `cells` that stands at (x, y), if any.
pub open spec fn last_at(cells: Seq<CellView>, x: int, y: int) -> Option<CellView>
    decreases cells.len(),
{
    if cells.len() == 0 {
        None
    } else if cells.last().pos.x == x && cells.last().pos.y == y {
        Some(cells.last())
    } else {
        last_at(cells.drop_last(), x, y)
    }
}

/// The board of the given size holding `cells`, a later one replacing an
/// earlier one at the same position.
pub open spec fn filled_view(width: int, height: int, cells: Seq<CellView>) -> BoardView {
    BoardView {
        width,
        height,
        cells: Seq::new(width as nat, |x: int| Seq::new(height as nat, |y: int| last_at(cells, x, y))),
    }
}

pub open spec fn cell_views(cells: Seq<Cell>) -> Seq<CellView> {
    cells.map_values(|c: Cell| c@)
}

/// Every placement's position lies on a width × height board.
pub open spec fn all_within(cells: Seq<CellView>, width: int, height: int) -> bool {
    forall|i: int| 0 <= i < cells.len() ==> (#[trigger] cells[i]).pos.x < width && cells[i].pos.y < height
}

/// The view of an optional placement.
pub open spec fn opt_view(c: Option<Cell>) -> Option<CellView> {
    match c {
        Some(c) => Some(c@),
        None => None,
    }
}

impl Clone for Struct {
    fn clone(&self) -> (r: Self)
        ensures
            r@ == self@,
    {
        let sides = self.sides.clone();
        proof {
            assert(sides@ =~= self.sides@);
        }
        Struct { terrain: self.terrain, sides, value: self.value }
    }
}

impl Clone for Card {
    fn clone(&self) -> (r: Self)
        ensures
            r@ == self@,
    {
        let structs = self.structs.clone();
        proof {
            assert forall|i: int| 0 <= i < structs@.len() implies structs@[i]@
                == self.structs@[i]@ by {
                assert(cloned::<Struct>(self.structs[i], structs[i]));
            }
            assert(structs@.map_values(|s: Struct| s@) =~= self.structs@.map_values(
                |s: Struct| s@,
            ));
        }
        Card { structs, monastery: self.monastery, pic: self.pic.clone() }
    }
}

impl Clone for Cell {
    fn clone(&self) -> (r: Self)
        ensures
            r@ == self@,
    {
        Cell { pos: self.pos, card: self.card.clone(), card_side: self.card_side }
    }
}

/// The number of quarter turns that a side stands for.
pub open spec fn side_index(s: CardSide) -> int {
    match s {
        CardSide::LEFT => 0,
        CardSide::TOP => 1,
        CardSide::RIGHT => 2,
        CardSide::BOTTOM => 3,
    }
}

/// The side for a number of quarter turns, taken modulo 4.
pub open spec fn side_of_index(i: int) -> CardSide {
    let j = i % 4;
    if j == 0 {
        CardSide::LEFT
    } else if j == 1 {
        CardSide::TOP
    } else if j == 2 {
        CardSide::RIGHT
    } else {
        CardSide::BOTTOM
    }
}

/// `s` moved `k` steps along the cycle LEFT → TOP → RIGHT → BOTTOM → LEFT.
pub open spec fn rotate_side(s: CardSide, k: int) -> CardSide {
    side_of_index(side_index(s) + k)
}

/// The side facing `s`.
pub open spec fn opposite_side(s: CardSide) -> CardSide {
    rotate_side(s, 2)
}

/// The board side that the tile-local side `s` faces on a tile placed with orientation `o`.
pub open spec fn geom_side(s: CardSide, o: CardSide) -> CardSide {
    rotate_side(s, -side_index(o))
}

/// The tile-local side that faces the board side `side` on a tile placed with orientation `o`.
pub open spec fn local_side(side: CardSide, o: CardSide) -> CardSide {
    rotate_side(side, side_index(o))
}

/// Index of the first structure among `structs` that claims `side`.
pub open spec fn first_claim(structs: Seq<StructView>, side: CardSide) -> Option<int>
    decreases structs.len(),
{
    if structs.len() == 0 {
        None
    } else {
        match first_claim(structs.drop_last(), side) {
            Some(i) => Some(i),
            None => if structs.last().sides.contains(side) {
                Some(structs.len() - 1)
            } else {
                None
            },
        }
    }
}

/// A claim found in a prefix of the structures stays the first claim of all of them.
pub proof fn lemma_first_claim_prefix(structs: Seq<StructView>, n: int, side: CardSide)
    requires
        0 <= n <= structs.len(),
        first_claim(structs.subrange(0, n), side) is Some,
    ensures
        first_claim(structs, side) == first_claim(structs.subrange(0, n), side),
    decreases structs.len() - n,
{
    if n < structs.len() {
        let next = structs.subrange(0, n + 1);
        assert(next.drop_last() =~= structs.subrange(0, n));
        lemma_first_claim_prefix(structs, n + 1, side);
    } else {
        assert(structs.subrange(0, n) =~= structs);
    }
}

/// Terrain of an un-rotated side of a template: that of the first structure
/// claiming the side, FIELD if none does.
pub open spec fn card_terrain(card: CardView, side: CardSide) -> TerrainType {
    match first_claim(card.structs, side) {
        Some(i) => card.structs[i].terrain,
        None => TerrainType::FIELD,
    }
}

/// Terrain that a placed tile shows on the board side `side`.
pub open spec fn cell_terrain(cell: CellView, side: CardSide) -> TerrainType {
    card_terrain(cell.card, local_side(side, cell.card_side))
}

/// Terrain on the board side `side` of an optional placement: FIELD for an empty place.
pub open spec fn place_terrain(cell: Option<CellView>, side: CardSide) -> TerrainType {
    match cell {
        Some(c) => cell_terrain(c, side),
        None => TerrainType::FIELD,
    }
}

/// `cell` turned by `k` further quarter turns.
pub open spec fn rotated(cell: CellView, k: int) -> CellView {
    CellView { card_side: rotate_side(cell.card_side, k), ..cell }
}

pub proof fn lemma_side_of_index_mod(i: int)
    ensures
        side_index(side_of_index(i)) == i % 4,
        side_of_index(i) == side_of_index(i % 4),
{
}

/// Rotating a tile by `k` quarter turns shifts what it shows: the board side
/// `side` of the turned tile shows what the side `k` steps further on showed.
pub proof fn lemma_rotation_shifts_sides(cell: CellView, side: CardSide, k: int)
    ensures
        cell_terrain(rotated(cell, k), side) == cell_terrain(cell, rotate_side(side, k)),
{
    lemma_side_of_index_mod(side_index(cell.card_side) + k);
    lemma_side_of_index_mod(side_index(side) + k);
    lemma_side_of_index_mod(side_index(side) + side_index(rotate_side(cell.card_side, k)));
    lemma_side_of_index_mod(side_index(rotate_side(side, k)) + side_index(cell.card_side));
    let a = side_index(side);
    let o = side_index(cell.card_side);
    assert(((a + (o + k) % 4) % 4) == ((((a + k) % 4) + o) % 4)) by (nonlinear_arith);
}

/// A full cycle of four quarter turns, applied to the orientation and to the
/// side looked at together, leaves the terrain seen unchanged.
pub proof fn lemma_full_rotation_cycle(cell: CellView, side: CardSide)
    ensures
        cell_terrain(rotated(cell, 4), rotate_side(side, 4)) == cell_terrain(cell, side),
        rotated(cell, 4) == cell,
        rotate_side(side, 4) == side,
{
    lemma_side_of_index_mod(side_index(cell.card_side) + 4);
    lemma_side_of_index_mod(side_index(side) + 4);
}

/// Placing a structure's side and then looking it up from the board finds the same side.
pub proof fn lemma_local_geom_inverse(s: CardSide, o: CardSide)
    ensures
        local_side(geom_side(s, o), o) == s,
        geom_side(local_side(s, o), o) == s,
{
    lemma_side_of_index_mod(side_index(s) - side_index(o));
    lemma_side_of_index_mod(side_index(s) + side_index(o));
}

impl Board {
    /// An empty board of the given size.
    pub fn new(width: usize, height: usize) -> (r: Board)
        requires
            width >= 1,
            height >= 1,
            width * height <= usize::MAX / 16,
        ensures
            r@ == filled_view(width as int, height as int, Seq::empty()),
            r@.wf(),
    {
        let mut cells: Vec<Vec<Option<Cell>>> = Vec::new();
        for x in 0..width
            invariant
                cells@.len() == x,
                forall|i: int, y: int| 0 <= i < x && 0 <= y < height ==> #[trigger] cells@[i]@[y] is None,
                forall|i: int| 0 <= i < x ==> #[trigger] cells@[i]@.len() == height,
        {
            let mut col: Vec<Option<Cell>> = Vec::new();
            for y in 0..height
                invariant
                    col@.len() == y,
                    forall|j: int| 0 <= j < y ==> #[trigger] col@[j] is None,
            {
                col.push(None);
            }
            cells.push(col);
        }
        let r = Board { width, height, cells };
        assert(r@.cells =~= filled_view(width as int, height as int, Seq::empty()).cells) by {
            assert forall|x: int| 0 <= x < width implies #[trigger] r@.cells[x] =~= filled_view(
                width as int,
                height as int,
                Seq::empty(),
            ).cells[x] by {
                assert forall|y: int| 0 <= y < height implies #[trigger] r@.cells[x][y] == filled_view(
                    width as int,
                    height as int,
                    Seq::empty(),
                ).cells[x][y] by {
                    assert(r.cells@[x]@[y] is None);
                }
            }
        }
        r
    }

    /// Puts `cell` at its position, replacing what stood there.
    pub fn place(&mut self, cell: Cell)
        requires
            old(self)@.wf(),
            cell.pos.x < old(self)@.width,
            cell.pos.y < old(self)@.height,
        ensures
            final(self)@.wf(),
            final(self)@.width == old(self)@.width,
            final(self)@.height == old(self)@.height,
            forall|x: int, y: int|
                #[trigger] final(self)@.at(x, y) == if x == cell.pos.x && y == cell.pos.y {
                    Some(cell@)
                } else {
                    old(self)@.at(x, y)
                },
    {
        let x = cell.pos.x;
        let y = cell.pos.y;
        let ghost before = self@;
        let mut col: Vec<Option<Cell>> = Vec::new();
        std::mem::swap(&mut col, &mut self.cells[x]);
        assert(col@.len() == before.cells[x as int].len());
        col.set(y, Some(cell));
        std::mem::swap(&mut col, &mut self.cells[x]);
        proof {
            assert forall|i: int| 0 <= i < self@.width implies #[trigger] self@.cells[i] == if i == x {
                before.cells[i].update(y as int, Some(cell@))
            } else {
                before.cells[i]
            } by {
                if i == x {
                    assert(self@.cells[i] =~= before.cells[i].update(y as int, Some(cell@)));
                } else {
                    assert(self@.cells[i] =~= before.cells[i]);
                }
            }
            assert(self@.cells.len() == before.cells.len());
            assert forall|i: int| 0 <= i < self@.width implies #[trigger] self@.cells[i].len() == self@.height by {
                assert(before.cells[i].len() == before.height);
            }
            assert forall|i: int, j: int| #[trigger] self@.occupied(i, j) implies self@.at(i, j)->0.pos == Pos {
                x: i as usize,
                y: j as usize,
            } by {
                if !(i == x && j == y) {
                    assert(before.occupied(i, j));
                }
            }
        }
    }
}

/// The lower-case name of a terrain.
pub open spec fn terrain_name(t: TerrainType) -> Seq<char> {
    match t {
        TerrainType::TOWN => seq!['t', 'o', 'w', 'n'],
        TerrainType::ROAD => seq!['r', 'o', 'a', 'd'],
        TerrainType::FIELD => seq!['f', 'i', 'e', 'l', 'd'],
    }
}

impl TerrainType {
    /// The terrain's name, as it is printed.
    pub fn name(&self) -> (r: String)
        ensures
            r@ == terrain_name(*self),
    {
        let r = match self {
            TerrainType::TOWN => "town".to_owned(),
            TerrainType::ROAD => "road".to_owned(),
            TerrainType::FIELD => "field".to_owned(),
        };
        proof {
            reveal_strlit("town");
            reveal_strlit("road");
            reveal_strlit("field");
        }
        r
    }
}

impl CardSide {
    pub fn get_opposite(&self) -> (r: CardSide)
        ensures
            r == opposite_side(*self),
    {
        match self {
            CardSide::LEFT => CardSide::RIGHT,
            CardSide::TOP => CardSide::BOTTOM,
            CardSide::RIGHT => CardSide::LEFT,
            CardSide::BOTTOM => CardSide::TOP,
        }
    }
}

impl Card {
    pub fn left(&self) -> (r: TerrainType)
        ensures
            r == card_terrain(self@, CardSide::LEFT),
    {
        self.get_terrain(CardSide::LEFT)
    }

    pub fn right(&self) -> (r: TerrainType)
        ensures
            r == card_terrain(self@, CardSide::RIGHT),
    {
        self.get_terrain(CardSide::RIGHT)
    }

    pub fn top(&self) -> (r: TerrainType)
        ensures
            r == card_terrain(self@, CardSide::TOP),
    {
        self.get_terrain(CardSide::TOP)
    }

    pub fn bottom(&self) -> (r: TerrainType)
        ensures
            r == card_terrain(self@, CardSide::BOTTOM),
    {
        self.get_terrain(CardSide::BOTTOM)
    }

    /// Index of the first structure claiming `side`, if any.
    pub fn find_claim(&self, side: CardSide) -> (r: Option<usize>)
        ensures
            r matches Some(i) ==> i < self.structs@.len() && first_claim(self@.structs, side) == Some(i as int),
            r is None ==> first_claim(self@.structs, side) is None,
    {
        let mut i: usize = 0;
        while i < self.structs.len()
            invariant
                i <= self.structs@.len(),
                first_claim(self@.structs.subrange(0, i as int), side) is None,
            decreases self.structs@.len() - i,
        {
            let st = &self.structs[i];
            let mut j: usize = 0;
            let mut found = false;
            while j < st.sides.len()
                invariant
                    j <= st.sides@.len(),
                    found <==> exists|k: int| 0 <= k < j && st.sides@[k] == side,
                decreases st.sides@.len() - j,
            {
                if st.sides[j] == side {
                    found = true;
                }
                j += 1;
            }
            let ghost pre = self@.structs.subrange(0, i + 1);
            assert(pre.drop_last() =~= self@.structs.subrange(0, i as int));
            assert(pre.last() == st@);
            if found {
                assert(st.sides@.contains(side)) by {
                    let k = choose|k: int| 0 <= k < j && st.sides@[k] == side;
                    assert(st.sides@[k] == side);
                }
                proof {
                    lemma_first_claim_prefix(self@.structs, i + 1, side);
                }
                return Some(i);
            }
            assert(!st.sides@.contains(side));
            i += 1;
        }
        assert(self@.structs.subrange(0, i as int) =~= self@.structs);
        None
    }

    pub fn get_terrain(&self, side: CardSide) -> (r: TerrainType)
        ensures
            r == card_terrain(self@, side),
    {
        match self.find_claim(side) {
            Some(i) => self.structs[i].terrain,
            None => TerrainType::FIELD,
        }
    }
}

impl Cell {
    pub fn get_side(&self, side: &CardSide) -> (r: TerrainType)
        ensures
            r == cell_terrain(self@, *side),
    {
        match side {
            CardSide::LEFT => self.left(),
            CardSide::TOP => self.top(),
            CardSide::RIGHT => self.right(),
            CardSide::BOTTOM => self.bottom(),
        }
    }

    pub fn left(&self) -> (r: TerrainType)
        ensures
            r == cell_terrain(self@, CardSide::LEFT),
    {
        match self.card_side {
            CardSide::LEFT => self.card.left(),
            CardSide::TOP => self.card.top(),
            CardSide::RIGHT => self.card.right(),
            CardSide::BOTTOM => self.card.bottom(),
        }
    }

    pub fn top(&self) -> (r: TerrainType)
        ensures
            r == cell_terrain(self@, CardSide::TOP),
    {
        match self.card_side {
            CardSide::LEFT => self.card.top(),
            CardSide::TOP => self.card.right(),
            CardSide::RIGHT => self.card.bottom(),
            CardSide::BOTTOM => self.card.left(),
        }
    }

    pub fn right(&self) -> (r: TerrainType)
        ensures
            r == cell_terrain(self@, CardSide::RIGHT),
    {
        match self.card_side {
            CardSide::LEFT => self.card.right(),
            CardSide::TOP => self.card.bottom(),
            CardSide::RIGHT => self.card.left(),
            CardSide::BOTTOM => self.card.top(),
        }
    }

    pub fn bottom(&self) -> (r: TerrainType)
        ensures
            r == cell_terrain(self@, CardSide::BOTTOM),
    {
        match self.card_side {
            CardSide::LEFT => self.card.bottom(),
            CardSide::TOP => self.card.left(),
            CardSide::RIGHT => self.card.top(),
            CardSide::BOTTOM => self.card.right(),
        }
    }
}

pub fn left_side(cell: &Option<Cell>) -> (r: TerrainType)
    ensures
        r == place_terrain(opt_view(*cell), CardSide::LEFT),
{
    match cell {
        Some(cell) => cell.left(),
        None => TerrainType::FIELD,
    }
}

pub fn top_side(cell: &Option<Cell>) -> (r: TerrainType)
    ensures
        r == place_terrain(opt_view(*cell), CardSide::TOP),
{
    match cell {
        Some(cell) => cell.top(),
        None => TerrainType::FIELD,
    }
}

pub fn right_side(cell: &Option<Cell>) -> (r: TerrainType)
    ensures
        r == place_terrain(opt_view(*cell), CardSide::RIGHT),
{
    match cell {
        Some(cell) => cell.right(),
        None => TerrainType::FIELD,
    }
}

pub fn bottom_side(cell: &Option<Cell>) -> (r: TerrainType)
    ensures
        r == place_terrain(opt_view(*cell), CardSide::BOTTOM),
{
    match cell {
        Some(cell) => cell.bottom(),
        None => TerrainType::FIELD,
    }
}

} // verus!
