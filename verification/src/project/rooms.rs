//! Rooms, their kinds and the walking distances between them.

use crate::utils::{
    code_of, distinct, int_encode, lemma_code_of, lemma_distinct_from, lemma_distinct_keeps, lookup,
    texts,
};
use vstd::prelude::*;

verus! {

/// A room, by its position in the list of rooms.
#[derive(Debug, Clone, Copy, PartialEq, Eq, Hash, Structural)]
pub struct Room(pub usize);

/// A kind of room, by its code.
#[derive(Debug, Clone, Copy, PartialEq, Eq, Hash, Structural)]
pub struct RoomKind(pub usize);

/// Why a list of rooms and a distance matrix were rejected.
#[derive(Debug, Clone, Copy, PartialEq, Eq, Structural)]
pub enum RoomsError {
    /// The header row and the left column name different rooms.
    HeaderMismatch,
    /// The room at this position has no kind.
    MissingKind(usize),
    /// The matrix has not one row of one entry for each room.
    NotSquare,
    /// The two entries for this pair of rooms differ.
    Asymmetric(usize, usize),
    /// The entry for this pair of rooms is negative, or it is the distance of
    /// a room from itself and not zero.
    BadDistance(usize, usize),
}

/// The rooms of a project.
#[derive(Debug)]
pub struct Rooms {
    names: Vec<String>,
    adjacent: Vec<Vec<i32>>,
    kinds: Vec<RoomKind>,
    set_kinds: Vec<RoomKind>,
    kind_names: Vec<String>,
}

/// The first kind that `name_to_kind` gives for `room`, searching below `bound`.
pub open spec fn kind_text_of(
    name_to_kind: Seq<(String, String)>,
    room: Seq<char>,
    from: int,
) -> Option<Seq<char>>
    decreases name_to_kind.len() - from,
{
    if from < 0 || from >= name_to_kind.len() {
        None
    } else if name_to_kind[from].0@ == room {
        Some(name_to_kind[from].1@)
    } else {
        kind_text_of(name_to_kind, room, from + 1)
    }
}

/// The kind names of the rooms `names`, in order, as far as each has one.
pub open spec fn kind_texts(name_to_kind: Seq<(String, String)>, names: Seq<Seq<char>>) -> Seq<
    Seq<char>,
> {
    Seq::new(
        names.len(),
        |i: int|
            match kind_text_of(name_to_kind, names[i], 0) {
                Some(k) => k,
                None => Seq::empty(),
            },
    )
}

/// The rooms below `n` whose kind is `kind`, in ascending order.
pub open spec fn of_kind(kinds: Seq<RoomKind>, kind: RoomKind, n: int) -> Seq<Room>
    decreases n,
{
    if n <= 0 {
        Seq::empty()
    } else if kinds[n - 1] == kind {
        of_kind(kinds, kind, n - 1).push(Room((n - 1) as usize))
    } else {
        of_kind(kinds, kind, n - 1)
    }
}

/// The matrix has one row of `n` entries for each of `n` rooms.
pub open spec fn square(mat: Seq<Vec<i32>>, n: nat) -> bool {
    mat.len() == n && forall|i: int| 0 <= i < n ==> (#[trigger] mat[i]).len() == n
}

impl Rooms {
    /// Number of rooms.
    pub closed spec fn spec_len(&self) -> nat {
        self.names.len() as nat
    }

    /// Kind of room `r`.
    pub closed spec fn spec_room_kind(&self, r: Room) -> RoomKind {
        self.kinds[r.0 as int]
    }

    /// Walking distance from `a` to `b`.
    pub closed spec fn spec_distance(&self, a: Room, b: Room) -> int {
        self.adjacent[a.0 as int][b.0 as int] as int
    }

    /// Name of room `r`.
    pub closed spec fn spec_room_name(&self, r: Room) -> Seq<char> {
        self.names[r.0 as int]@
    }

    /// The rooms of kind `kind`, in ascending order.
    pub closed spec fn spec_rooms_with_kind(&self, kind: RoomKind) -> Seq<Room> {
        of_kind(self.kinds@, kind, self.kinds.len() as int)
    }

    /// The kinds in use, each once.
    pub closed spec fn spec_kinds(&self) -> Seq<RoomKind> {
        self.set_kinds@
    }

    /// The table that codes the kind names.
    pub closed spec fn spec_kind_names(&self) -> Seq<Seq<char>> {
        texts(self.kind_names@)
    }

    /// Some room is of kind `k`.
    pub open spec fn has_room_of_kind(&self, k: RoomKind) -> bool {
        exists|r: Room| r.0 < self.spec_len() && self.spec_room_kind(r) == k
    }

    /// The representation is consistent: one name, one kind and one matrix
    /// row per room, a square symmetric matrix, and the list of kinds in use
    /// without repetition.
    pub closed spec fn wf(&self) -> bool {
        &&& self.kinds.len() == self.names.len()
        &&& square(self.adjacent@, self.names.len() as nat)
        &&& forall|i: int, j: int|
            0 <= i < self.names.len() && 0 <= j < self.names.len() ==> self.adjacent[i][j]
                == self.adjacent[j][i]
        &&& distances(self.adjacent@)
        &&& forall|i: int|
            0 <= i < self.kinds.len() ==> (#[trigger] self.kinds[i]).0 < self.kind_names.len()
        &&& forall|i: int|
            0 <= i < self.kinds.len() ==> self.set_kinds@.contains(#[trigger] self.kinds[i])
        &&& forall|i: int|
            0 <= i < self.set_kinds.len() ==> self.kinds@.contains(#[trigger] self.set_kinds[i])
        &&& forall|i: int, j: int|
            0 <= i < j < self.set_kinds.len() ==> self.set_kinds[i] != self.set_kinds[j]
        &&& forall|c: int|
            0 <= c < self.kind_names.len() && code_of(
                texts(self.kind_names@),
                #[trigger] texts(self.kind_names@)[c],
            ) == Some(c) ==> self.kinds@.contains(RoomKind(c as usize))
        &&& forall|c: int|
            0 <= c < self.kind_names.len() ==> code_of(
                texts(self.kind_names@),
                #[trigger] texts(self.kind_names@)[c],
            ) == Some(c)
    }

    /// Distances are symmetric and not negative, and a room is at distance
    /// zero from itself.
    pub proof fn lemma_symmetric(&self, a: Room, b: Room)
        requires
            self.wf(),
            a.0 < self.spec_len(),
            b.0 < self.spec_len(),
        ensures
            self.spec_distance(a, b) == self.spec_distance(b, a),
            self.spec_distance(a, b) >= 0,
            self.spec_distance(a, a) == 0,
    {
        assert(!bad_distance(self.adjacent@, a.0 as int, b.0 as int));
        assert(!bad_distance(self.adjacent@, a.0 as int, a.0 as int));
    }

    /// The kinds in use are the kinds of the rooms, each listed once, and each
    /// has a name.
    pub proof fn lemma_kinds(&self)
        requires
            self.wf(),
        ensures
            forall|r: Room|
                r.0 < self.spec_len() ==> self.spec_kinds().contains(
                    #[trigger] self.spec_room_kind(r),
                ),
            forall|r: Room|
                r.0 < self.spec_len() ==> (#[trigger] self.spec_room_kind(r)).0
                    < self.spec_kind_names().len(),
            forall|i: int|
                0 <= i < self.spec_kinds().len() ==> self.has_room_of_kind(
                    #[trigger] self.spec_kinds()[i],
                ),
            forall|i: int, j: int|
                0 <= i < j < self.spec_kinds().len() ==> self.spec_kinds()[i]
                    != self.spec_kinds()[j],
            forall|c: int|
                0 <= c < self.spec_kind_names().len() ==> code_of(
                    self.spec_kind_names(),
                    #[trigger] self.spec_kind_names()[c],
                ) == Some(c),
    {
        assert forall|r: Room| r.0 < self.spec_len() implies self.spec_kinds().contains(
            #[trigger] self.spec_room_kind(r),
        ) by {
            assert(self.set_kinds@.contains(self.kinds[r.0 as int]));
        }
        assert forall|i: int| 0 <= i < self.spec_kinds().len() implies self.has_room_of_kind(
            #[trigger] self.spec_kinds()[i],
        ) by {
            assert(self.kinds@.contains(self.set_kinds[i]));
            let j = choose|j: int| 0 <= j < self.kinds.len() && self.kinds[j] == self.set_kinds[i];
            let r = Room(j as usize);
            assert(r.0 < self.spec_len() && self.spec_room_kind(r) == self.spec_kinds()[i]);
        }
    }

    /// A kind name that has a code is the kind of some room.
    pub proof fn lemma_named_kind_in_use(&self, name: Seq<char>)
        requires
            self.wf(),
            code_of(self.spec_kind_names(), name) is Some,
        ensures
            self.has_room_of_kind(RoomKind(code_of(self.spec_kind_names(), name).unwrap() as usize)),
            code_of(self.spec_kind_names(), name).unwrap() < self.spec_kind_names().len(),
    {
        lemma_code_of(self.spec_kind_names(), name);
        let c = code_of(self.spec_kind_names(), name).unwrap();
        assert(texts(self.kind_names@)[c] == name);
        let k = RoomKind(c as usize);
        assert(self.kinds@.contains(k));
        let j = choose|j: int| 0 <= j < self.kinds.len() && self.kinds[j] == k;
        let r = Room(j as usize);
        assert(r.0 < self.spec_len() && self.spec_room_kind(r) == k);
    }

    /// Walking distance from `a` to `b`.
    pub fn distance(&self, a: &Room, b: &Room) -> (d: i32)
        requires
            self.wf(),
            a.0 < self.spec_len(),
            b.0 < self.spec_len(),
        ensures
            d == self.spec_distance(*a, *b),
            d == self.spec_distance(*b, *a),
            d >= 0,
            *a == *b ==> d == 0,
    {
        assert(!bad_distance(self.adjacent@, a.0 as int, b.0 as int));
        self.adjacent[a.0][b.0]
    }

    /// Kind of room `r`.
    pub fn room_kind(&self, r: &Room) -> (k: RoomKind)
        requires
            self.wf(),
            r.0 < self.spec_len(),
        ensures
            k == self.spec_room_kind(*r),
    {
        self.kinds[r.0]
    }

    /// The kinds in use, each once.
    pub fn iter_kinds(&self) -> (kinds: Vec<RoomKind>)
        ensures
            kinds@ == self.spec_kinds(),
    {
        let mut kinds: Vec<RoomKind> = Vec::new();
        let mut i: usize = 0;
        while i < self.set_kinds.len()
            invariant
                i <= self.set_kinds.len(),
                kinds@ == self.set_kinds@.take(i as int),
            decreases self.set_kinds.len() - i,
        {
            kinds.push(self.set_kinds[i]);
            i += 1;
        }
        kinds
    }

    /// Name of room `r`.
    pub fn room_name(&self, r: &Room) -> (name: &str)
        requires
            self.wf(),
            r.0 < self.spec_len(),
        ensures
            name@ == self.spec_room_name(*r),
    {
        self.names[r.0].as_str()
    }

    /// The rooms of kind `kind`, in ascending order.
    pub fn rooms_with_kind(&self, kind: &RoomKind) -> (rooms: Vec<Room>)
        requires
            self.wf(),
        ensures
            rooms@ == self.spec_rooms_with_kind(*kind),
            rooms.len() <= self.spec_len(),
            forall|i: int|
                0 <= i < rooms.len() ==> (#[trigger] rooms[i]).0 < self.spec_len()
                    && self.spec_room_kind(rooms[i]) == *kind,
            forall|i: int, j: int| 0 <= i < j < rooms.len() ==> rooms[i].0 < rooms[j].0,
            forall|r: Room|
                r.0 < self.spec_len() && self.spec_room_kind(r) == *kind ==> rooms@.contains(r),
    {
        let mut rooms: Vec<Room> = Vec::new();
        let mut i: usize = 0;
        while i < self.kinds.len()
            invariant
                i <= self.kinds.len(),
                self.kinds.len() == self.names.len(),
                rooms@ == of_kind(self.kinds@, *kind, i as int),
                rooms.len() <= i,
                forall|k: int|
                    0 <= k < rooms.len() ==> (#[trigger] rooms[k]).0 < i && self.kinds[rooms[k].0 as int]
                        == *kind,
                forall|k: int, j: int| 0 <= k < j < rooms.len() ==> rooms[k].0 < rooms[j].0,
                forall|r: Room|
                    r.0 < i && self.kinds[r.0 as int] == *kind ==> rooms@.contains(r),
            decreases self.kinds.len() - i,
        {
            if self.kinds[i] == *kind {
                let ghost before = rooms@;
                rooms.push(Room(i));
                assert forall|r: Room|
                    r.0 < i + 1 && self.kinds[r.0 as int] == *kind implies rooms@.contains(r) by {
                    if r.0 < i {
                        assert(before.contains(r));
                        let k = choose|k: int| 0 <= k < before.len() && before[k] == r;
                        assert(rooms@[k] == r);
                    } else {
                        assert(rooms@[rooms.len() - 1] == r);
                    }
                }
            }
            i += 1;
        }
        rooms
    }

    /// The kind that `name` is the code name of, if any.
    pub fn kind_name_to_id(&self, name: &str) -> (k: Option<RoomKind>)
        ensures
            k is Some <==> code_of(self.spec_kind_names(), name@) is Some,
            k matches Some(kind) ==> code_of(self.spec_kind_names(), name@) == Some(
                kind.0 as int,
            ),
    {
        match lookup(&self.kind_names, name) {
            Some(i) => Some(RoomKind(i)),
            None => None,
        }
    }

    /// Number of rooms.
    pub fn len(&self) -> (n: usize)
        ensures
            n == self.spec_len(),
    {
        self.names.len()
    }

    /// All rooms, in ascending order.
    pub fn iter_all(&self) -> (rooms: Vec<Room>)
        ensures
            rooms.len() == self.spec_len(),
            forall|i: int| 0 <= i < rooms.len() ==> rooms[i] == Room(i as usize),
    {
        let mut rooms: Vec<Room> = Vec::new();
        let mut i: usize = 0;
        while i < self.names.len()
            invariant
                i <= self.names.len(),
                rooms.len() == i,
                forall|k: int| 0 <= k < rooms.len() ==> rooms[k] == Room(k as usize),
            decreases self.names.len() - i,
        {
            rooms.push(Room(i));
            i += 1;
        }
        rooms
    }
}


/// Whether two lists hold the same names in the same order.
pub fn same_names(a: &Vec<String>, b: &Vec<String>) -> (same: bool)
    ensures
        same == (texts(a@) == texts(b@)),
{
    if a.len() != b.len() {
        assert(texts(a@).len() != texts(b@).len());
        return false;
    }
    let mut i: usize = 0;
    while i < a.len()
        invariant
            i <= a.len(),
            a.len() == b.len(),
            forall|j: int| 0 <= j < i ==> a[j]@ == b[j]@,
        decreases a.len() - i,
    {
        if a[i] != b[i] {
            assert(texts(a@)[i as int] != texts(b@)[i as int]);
            return false;
        }
        i += 1;
    }
    assert(texts(a@) =~= texts(b@));
    true
}

/// The first kind that `name_to_kind` gives for `room`.
fn find_kind(name_to_kind: &Vec<(String, String)>, room: &String) -> (kind: Option<String>)
    ensures
        kind is Some <==> kind_text_of(name_to_kind@, room@, 0) is Some,
        kind matches Some(k) ==> kind_text_of(name_to_kind@, room@, 0) == Some(k@),
{
    let mut i: usize = 0;
    while i < name_to_kind.len()
        invariant
            i <= name_to_kind.len(),
            kind_text_of(name_to_kind@, room@, 0) == kind_text_of(name_to_kind@, room@, i as int),
        decreases name_to_kind.len() - i,
    {
        if name_to_kind[i].0 == *room {
            return Some(name_to_kind[i].1.clone());
        }
        i += 1;
    }
    None
}

/// Whether `mat` has one row of `n` entries for each of `n` rooms.
fn is_square(mat: &Vec<Vec<i32>>, n: usize) -> (ok: bool)
    ensures
        ok == square(mat@, n as nat),
{
    if mat.len() != n {
        return false;
    }
    let mut i: usize = 0;
    while i < n
        invariant
            i <= n,
            mat.len() == n,
            forall|k: int| 0 <= k < i ==> (#[trigger] mat[k]).len() == n,
        decreases n - i,
    {
        if mat[i].len() != n {
            return false;
        }
        i += 1;
    }
    true
}

/// Entry `(i, j)` is the first, row by row, that differs from its mirror.
pub open spec fn first_asymmetry(mat: Seq<Vec<i32>>, i: int, j: int) -> bool {
    &&& 0 <= i < mat.len()
    &&& 0 <= j < mat.len()
    &&& mat[i][j] != mat[j][i]
    &&& forall|a: int, b: int|
        0 <= a < mat.len() && 0 <= b < mat.len() && (a < i || (a == i && b < j)) ==> mat[a][b]
            == mat[b][a]
}

/// The matrix equals its mirror.
pub open spec fn symmetric(mat: Seq<Vec<i32>>) -> bool {
    forall|a: int, b: int| 0 <= a < mat.len() && 0 <= b < mat.len() ==> mat[a][b] == mat[b][a]
}

/// The first entry, row by row, that differs from its mirror.
fn find_asymmetry(mat: &Vec<Vec<i32>>) -> (found: Option<(usize, usize)>)
    requires
        square(mat@, mat.len() as nat),
    ensures
        found is None <==> symmetric(mat@),
        found matches Some((i, j)) ==> first_asymmetry(mat@, i as int, j as int),
{
    let n = mat.len();
    let mut i: usize = 0;
    while i < n
        invariant
            i <= n,
            n == mat.len(),
            square(mat@, n as nat),
            forall|a: int, b: int| 0 <= a < i && 0 <= b < n ==> mat[a][b] == mat[b][a],
        decreases n - i,
    {
        let mut j: usize = 0;
        while j < n
            invariant
                i < n,
                j <= n,
                n == mat.len(),
                square(mat@, n as nat),
                forall|a: int, b: int| 0 <= a < i && 0 <= b < n ==> mat[a][b] == mat[b][a],
                forall|b: int| 0 <= b < j ==> mat[i as int][b] == mat[b][i as int],
            decreases n - j,
        {
            if mat[i][j] != mat[j][i] {
                return Some((i, j));
            }
            j += 1;
        }
        i += 1;
    }
    None
}

/// Entry `(i, j)` is no distance: it is negative, or it is on the diagonal
/// and not zero.
pub open spec fn bad_distance(mat: Seq<Vec<i32>>, i: int, j: int) -> bool {
    mat[i][j] < 0 || (i == j && mat[i][j] != 0)
}

/// Entry `(i, j)` is the first, row by row, that is no distance.
pub open spec fn first_bad_distance(mat: Seq<Vec<i32>>, i: int, j: int) -> bool {
    &&& 0 <= i < mat.len()
    &&& 0 <= j < mat.len()
    &&& bad_distance(mat, i, j)
    &&& forall|a: int, b: int|
        0 <= a < mat.len() && 0 <= b < mat.len() && (a < i || (a == i && b < j))
            ==> !#[trigger] bad_distance(mat, a, b)
}

/// No distance is negative, and every room is at distance zero from itself.
pub open spec fn distances(mat: Seq<Vec<i32>>) -> bool {
    forall|a: int, b: int|
        0 <= a < mat.len() && 0 <= b < mat.len() ==> !#[trigger] bad_distance(mat, a, b)
}

/// The first entry, row by row, that is no distance.
fn find_bad_distance(mat: &Vec<Vec<i32>>) -> (found: Option<(usize, usize)>)
    requires
        square(mat@, mat.len() as nat),
    ensures
        found is None <==> distances(mat@),
        found is Some ==> first_bad_distance(
            mat@,
            found.unwrap().0 as int,
            found.unwrap().1 as int,
        ),
{
    let n = mat.len();
    let mut i: usize = 0;
    while i < n
        invariant
            i <= n,
            n == mat.len(),
            square(mat@, n as nat),
            forall|a: int, b: int| 0 <= a < i && 0 <= b < n ==> !#[trigger] bad_distance(mat@, a, b),
        decreases n - i,
    {
        let mut j: usize = 0;
        while j < n
            invariant
                i < n,
                j <= n,
                n == mat.len(),
                square(mat@, n as nat),
                forall|a: int, b: int|
                    0 <= a < i && 0 <= b < n ==> !#[trigger] bad_distance(mat@, a, b),
                forall|b: int| 0 <= b < j ==> !#[trigger] bad_distance(mat@, i as int, b),
            decreases n - j,
        {
            if mat[i][j] < 0 || (i == j && mat[i][j] != 0) {
                assert(bad_distance(mat@, i as int, j as int));
                return Some((i, j));
            }
            j += 1;
        }
        i += 1;
    }
    None
}

/// What `parse_rooms` answers: the first check that fails, in the order header,
/// kinds, shape, symmetry, distances.
pub open spec fn rooms_input_ok(
    name_to_kind: Seq<(String, String)>,
    names_row: Seq<String>,
    names_col: Seq<String>,
    mat: Seq<Vec<i32>>,
) -> bool {
    &&& texts(names_row) == texts(names_col)
    &&& forall|i: int|
        0 <= i < names_col.len() ==> kind_text_of(name_to_kind, names_col[i]@, 0) is Some
    &&& square(mat, names_col.len())
    &&& symmetric(mat)
    &&& distances(mat)
}

/// What is built from an input that passes the checks: the rooms are
/// those of the header row, in its order, with the distances of the matrix;
/// the kinds are coded by the kind names of the rooms, each once, in the
/// order in which they first come; and the kind of a room is the code of
/// its kind name.
pub open spec fn rooms_built(
    rooms: &Rooms,
    name_to_kind: Seq<(String, String)>,
    names_row: Seq<String>,
    names_col: Seq<String>,
    mat: Seq<Vec<i32>>,
) -> bool {
    &&& rooms.wf()
    &&& rooms.spec_len() == names_row.len()
    &&& forall|i: int|
        0 <= i < names_row.len() ==> rooms.spec_room_name(Room(i as usize)) == names_row[i]@
    &&& forall|i: int, j: int|
        0 <= i < names_row.len() && 0 <= j < names_row.len() ==> rooms.spec_distance(
            Room(i as usize),
            Room(j as usize),
        ) == mat[i][j]
    &&& rooms.spec_kind_names() == distinct(kind_texts(name_to_kind, texts(names_col)))
    &&& forall|i: int|
        0 <= i < names_row.len() ==> code_of(
            rooms.spec_kind_names(),
            kind_texts(name_to_kind, texts(names_col))[i],
        ) == Some(rooms.spec_room_kind(Room(i as usize)).0 as int)
}

/// What the error `e` says of an input that is rejected: the check that
/// fails, with the place where it fails first, and that the checks before
/// it pass.
pub open spec fn rooms_rejected(
    e: RoomsError,
    name_to_kind: Seq<(String, String)>,
    names_row: Seq<String>,
    names_col: Seq<String>,
    mat: Seq<Vec<i32>>,
) -> bool {
    match e {
        RoomsError::HeaderMismatch => texts(names_row) != texts(names_col),
        RoomsError::MissingKind(i) => {
            &&& texts(names_row) == texts(names_col)
            &&& i < names_col.len()
            &&& kind_text_of(name_to_kind, names_col[i as int]@, 0) is None
            &&& forall|j: int| 0 <= j < i ==> kind_text_of(name_to_kind, names_col[j]@, 0) is Some
        },
        RoomsError::NotSquare => {
            &&& texts(names_row) == texts(names_col)
            &&& forall|j: int|
                0 <= j < names_col.len() ==> kind_text_of(name_to_kind, names_col[j]@, 0) is Some
            &&& !square(mat, names_col.len() as nat)
        },
        RoomsError::Asymmetric(i, j) => {
            &&& texts(names_row) == texts(names_col)
            &&& forall|j: int|
                0 <= j < names_col.len() ==> kind_text_of(name_to_kind, names_col[j]@, 0) is Some
            &&& square(mat, names_col.len() as nat)
            &&& first_asymmetry(mat, i as int, j as int)
        },
        RoomsError::BadDistance(i, j) => {
            &&& texts(names_row) == texts(names_col)
            &&& forall|j: int|
                0 <= j < names_col.len() ==> kind_text_of(name_to_kind, names_col[j]@, 0) is Some
            &&& square(mat, names_col.len() as nat)
            &&& symmetric(mat)
            &&& first_bad_distance(mat, i as int, j as int)
        },
    }
}

/// Builds the rooms from the mapping of room names to kind names and from the
/// distance table: its header row, its left column and its numbers. Kinds are
/// coded by `int_encode` over the kind names in the order of the left column.
#[verifier::loop_isolation(false)]
pub fn parse_rooms(
    name_to_kind: &Vec<(String, String)>,
    names_row: Vec<String>,
    names_col: Vec<String>,
    mat: Vec<Vec<i32>>,
) -> (r: Result<Rooms, RoomsError>)
    ensures
        r is Ok <==> rooms_input_ok(name_to_kind@, names_row@, names_col@, mat@),
        match r {
            Ok(rooms) => rooms_built(&rooms, name_to_kind@, names_row@, names_col@, mat@),
            Err(e) => rooms_rejected(e, name_to_kind@, names_row@, names_col@, mat@),
        },
{
    if !same_names(&names_row, &names_col) {
        return Err(RoomsError::HeaderMismatch);
    }
    assert(names_row.len() == names_col.len()) by {
        assert(texts(names_row@).len() == texts(names_col@).len());
    }
    let n = names_col.len();
    let ghost wanted = kind_texts(name_to_kind@, texts(names_col@));
    let mut kind_of: Vec<String> = Vec::new();
    let mut keys: Vec<String> = Vec::new();
    let mut i: usize = 0;
    while i < n
        invariant
            i <= n,
            n == names_col.len(),
            wanted == kind_texts(name_to_kind@, texts(names_col@)),
            kind_of.len() == i,
            texts(kind_of@) == wanted.take(i as int),
            texts(keys@) == wanted.take(i as int),
            forall|j: int| 0 <= j < i ==> kind_text_of(name_to_kind@, names_col[j]@, 0) is Some,
        decreases n - i,
    {
        match find_kind(name_to_kind, &names_col[i]) {
            Some(k) => {
                assert(wanted[i as int] == k@);
                let key = k.clone();
                assert(key@ == k@);
                keys.push(key);
                kind_of.push(k);
                assert(texts(kind_of@) =~= wanted.take(i + 1));
                assert(texts(keys@) =~= wanted.take(i + 1));
            },
            None => {
                return Err(RoomsError::MissingKind(i));
            },
        }
        i += 1;
    }
    assert(wanted.take(n as int) == wanted);
    if !is_square(&mat, n) {
        return Err(RoomsError::NotSquare);
    }
    match find_asymmetry(&mat) {
        Some((a, b)) => {
            return Err(RoomsError::Asymmetric(a, b));
        },
        None => {},
    }
    match find_bad_distance(&mat) {
        Some((a, b)) => {
            return Err(RoomsError::BadDistance(a, b));
        },
        None => {},
    }
    let kind_names = int_encode(keys);
    let mut kinds: Vec<RoomKind> = Vec::new();
    let mut set_kinds: Vec<RoomKind> = Vec::new();
    let mut i: usize = 0;
    while i < n
        invariant
            i <= n,
            kind_of.len() == n,
            kinds.len() == i,
            texts(kind_of@) == wanted,
            texts(kind_names@) == distinct(wanted),
            wanted.len() == n,
            forall|j: int|
                0 <= j < i ==> (#[trigger] kinds[j]).0 < kind_names.len() && code_of(
                    texts(kind_names@),
                    wanted[j],
                ) == Some(kinds[j].0 as int),
            forall|j: int| 0 <= j < i ==> set_kinds@.contains(#[trigger] kinds[j]),
            forall|j: int| 0 <= j < set_kinds.len() ==> kinds@.contains(#[trigger] set_kinds[j]),
            forall|a: int, b: int| 0 <= a < b < set_kinds.len() ==> set_kinds[a] != set_kinds[b],
        decreases n - i,
    {
        proof {
            lemma_distinct_keeps(wanted, i as int);
            assert(texts(kind_of@)[i as int] == kind_of[i as int]@);
        }
        match lookup(&kind_names, kind_of[i].as_str()) {
            Some(c) => {
                let kind = RoomKind(c);
                let ghost kinds_before = kinds@;
                let ghost set_before = set_kinds@;
                kinds.push(kind);
                let known = contains_kind(&set_kinds, kind);
                if !known {
                    set_kinds.push(kind);
                }
                assert forall|j: int| 0 <= j < i + 1 implies set_kinds@.contains(
                    #[trigger] kinds[j],
                ) by {
                    if j < i {
                        assert(set_before.contains(kinds_before[j]));
                        let w = choose|w: int| 0 <= w < set_before.len() && set_before[w] == kinds_before[j];
                        assert(set_kinds@[w] == kinds[j]);
                    } else if known {
                        let w = choose|w: int| 0 <= w < set_before.len() && set_before[w] == kind;
                        assert(set_kinds@[w] == kinds[j]);
                    } else {
                        assert(set_kinds@[set_kinds.len() - 1] == kinds[j]);
                    }
                }
                assert forall|j: int| 0 <= j < set_kinds.len() implies kinds@.contains(
                    #[trigger] set_kinds[j],
                ) by {
                    if j < set_before.len() {
                        assert(kinds_before.contains(set_before[j]));
                        let w = choose|w: int| 0 <= w < kinds_before.len() && kinds_before[w] == set_before[j];
                        assert(kinds@[w] == set_kinds[j]);
                    } else {
                        assert(kinds@[i as int] == set_kinds[j]);
                    }
                }
            },
            None => {
                assert(false);
            },
        }
        i += 1;
    }
    proof {
        let table = texts(kind_names@);
        assert forall|c: int|
            0 <= c < kind_names.len() && code_of(table, #[trigger] table[c]) == Some(
                c,
            ) implies kinds@.contains(RoomKind(c as usize)) by {
            lemma_distinct_from(wanted, c);
            let w = choose|w: int| 0 <= w < wanted.len() && wanted[w] == table[c];
            assert(kinds[w] == RoomKind(c as usize));
        }
    }
    let rooms = Rooms { names: names_row, adjacent: mat, kinds, set_kinds, kind_names };
    Ok(rooms)
}

/// Whether `kinds` holds `kind`.
fn contains_kind(kinds: &Vec<RoomKind>, kind: RoomKind) -> (found: bool)
    ensures
        found == kinds@.contains(kind),
{
    let mut i: usize = 0;
    while i < kinds.len()
        invariant
            i <= kinds.len(),
            forall|j: int| 0 <= j < i ==> kinds[j] != kind,
        decreases kinds.len() - i,
    {
        if kinds[i] == kind {
            return true;
        }
        i += 1;
    }
    false
}

} // verus!
