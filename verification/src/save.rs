//! Projects: a name and a set of drawings, one of them the main drawing.
//!
//! The library does not touch files: a project goes out and comes in as
//! text, and the text form lives with the program around the library. What
//! the library decides about a loaded project stands here: a project saved
//! by a newer format version is refused rather than guessed at, every
//! drawing is repaired (pin layouts rebuilt, missing names given), and a
//! main drawing index out of range falls back to the first drawing.
use vstd::prelude::*;
use crate::board::{Board, Instance, coord_ok, MAX_INSTANCES, MAX_WIRES, auto_name_spec, pins_rebuilt};
use crate::values::{decimal, push_decimal};
use crate::text::copy_str;

verus! {

/// Current format version.
pub const SCHEMA_VERSION: u32 = 1;

/// A project.
#[derive(Debug)]
pub struct Project {
    pub schema_version: u32,
    pub name: String,
    /// The drawings of the project.
    pub boards: Vec<Board>,
    /// Index of the main drawing.
    pub main_board: usize,
}

/// Why a project could not be saved or loaded.
#[derive(Debug, Clone, PartialEq, Eq)]
pub enum SaveError {
    /// Encoding failed.
    Encode(String),
    /// Decoding failed.
    Decode(String),
    /// The project was saved by a newer format version.
    TooNew { found: u32, supported: u32 },
}

pub open spec fn message_spec(e: SaveError) -> Seq<char> {
    match e {
        SaveError::Encode(s) => "工程编码失败: "@ + s@,
        SaveError::Decode(s) => "工程解析失败: "@ + s@,
        SaveError::TooNew { found, supported } => "工程版本 "@ + decimal(found as nat) + " 高于本程序支持的 "@ + decimal(
            supported as nat,
        ) + "，请升级 LogicLab"@,
    }
}

impl SaveError {
    /// The message shown to a user.
    pub fn message(&self) -> (r: String)
        ensures
            r@ == message_spec(*self),
    {
        let mut s = String::new();
        match self {
            SaveError::Encode(e) => {
                s.append("工程编码失败: ");
                s.append(e.as_str());
            },
            SaveError::Decode(e) => {
                s.append("工程解析失败: ");
                s.append(e.as_str());
            },
            SaveError::TooNew { found, supported } => {
                s.append("工程版本 ");
                push_decimal(&mut s, *found as u64);
                s.append(" 高于本程序支持的 ");
                push_decimal(&mut s, *supported as u64);
                s.append("，请升级 LogicLab");
            },
        }
        s
    }
}

/// A loaded drawing the library can take: within its coordinate and size
/// limits.
pub open spec fn loadable(b: Board) -> bool {
    &&& forall|i: int| 0 <= i < b.instances@.len() ==> coord_ok((#[trigger] b.instances@[i]).x as int) && coord_ok(b.instances@[i].y as int)
    &&& b.instances@.len() <= MAX_INSTANCES
    &&& b.wires@.len() <= MAX_WIRES
    &&& b.annotations@.len() <= MAX_WIRES
    &&& b.labels@.len() <= MAX_WIRES
}

/// `b` is drawing `a` repaired after loading.
pub open spec fn repaired(a: Board, b: Board) -> bool {
    &&& b.wf()
    &&& b.instances@.len() == a.instances@.len()
    &&& forall|i: int|
        0 <= i < a.instances@.len() ==> {
            let x = a.instances@[i];
            let y = #[trigger] b.instances@[i];
            &&& y.def == x.def && y.params == x.params && y.x == x.x && y.y == x.y
            &&& y.rot == x.rot && y.mem_init@ == x.mem_init@ && y.sub == x.sub
            &&& y.display_name@ == (if x.display_name@.len() == 0 { auto_name_spec(i as u32) } else { x.display_name@ })
            &&& pins_rebuilt(x, y)
        }
    &&& b.wires@ == a.wires@
    &&& b.annotations@ == a.annotations@
    &&& b.labels@ == a.labels@
    &&& b.name@ == a.name@
    &&& b.name_en@ == a.name_en@
}

fn loadable_exec(b: &Board) -> (r: bool)
    ensures
        r == loadable(*b),
{
    if b.instances.len() > MAX_INSTANCES || b.wires.len() > MAX_WIRES || b.annotations.len() > MAX_WIRES || b.labels.len() > MAX_WIRES {
        return false;
    }
    let mut i: usize = 0;
    while i < b.instances.len()
        invariant
            i <= b.instances@.len(),
            forall|j: int| 0 <= j < i ==> coord_ok((#[trigger] b.instances@[j]).x as int) && coord_ok(b.instances@[j].y as int),
        decreases b.instances@.len() - i,
    {
        let it = &b.instances[i];
        if it.x < -crate::board::COORD_LIMIT || it.x > crate::board::COORD_LIMIT || it.y < -crate::board::COORD_LIMIT || it.y
            > crate::board::COORD_LIMIT {
            return false;
        }
        i = i + 1;
    }
    true
}

impl Project {
    /// An empty project.
    pub fn new(name: &str) -> (p: Project)
        ensures
            p.schema_version == SCHEMA_VERSION,
            p.name@ == name@,
            p.boards@.len() == 0,
            p.main_board == 0,
    {
        Project { schema_version: SCHEMA_VERSION, name: copy_str(name), boards: Vec::new(), main_board: 0 }
    }

    /// Appends a drawing; returns its index.
    pub fn add_board(&mut self, board: Board) -> (i: usize)
        requires
            old(self).boards@.len() < usize::MAX,
        ensures
            final(self).boards@ == old(self).boards@.push(board),
            i == old(self).boards@.len(),
            final(self).name@ == old(self).name@,
            final(self).main_board == old(self).main_board,
            final(self).schema_version == old(self).schema_version,
    {
        self.boards.push(board);
        self.boards.len() - 1
    }

    /// The main drawing, if the index is in range.
    pub fn main(&self) -> (r: Option<&Board>)
        ensures
            r == (if self.main_board < self.boards@.len() { Some(&self.boards@[self.main_board as int]) } else { None }),
    {
        if self.main_board < self.boards.len() {
            Some(&self.boards[self.main_board])
        } else {
            None
        }
    }

    /// Mutable access to the main drawing, if the index is in range.
    pub fn main_mut(&mut self) -> (r: Option<&mut Board>)
        ensures
            old(self).main_board < old(self).boards@.len() ==> r is Some && *r->0 == old(self).boards@[old(self).main_board as int]
                && final(self).boards@ == old(self).boards@.update(old(self).main_board as int, *final(r->0)),
            old(self).main_board >= old(self).boards@.len() ==> r is None && *final(self) == *old(self),
            final(self).main_board == old(self).main_board,
            final(self).name@ == old(self).name@,
            final(self).schema_version == old(self).schema_version,
    {
        if self.main_board < self.boards.len() {
            let m = self.main_board;
            Some(&mut self.boards[m])
        } else {
            None
        }
    }

    /// What loading decides once the text has been read into `self` and the
    /// format version `found` (0 when the text had none): a newer version is
    /// refused; otherwise every drawing is repaired, the version becomes the
    /// current one and a main index out of range becomes 0. A drawing beyond
    /// the library's limits is refused as undecodable.
    pub fn finish_load(self, found: u32) -> (r: Result<Project, SaveError>)
        ensures
            found > SCHEMA_VERSION ==> r == Err::<Project, SaveError>(SaveError::TooNew { found, supported: SCHEMA_VERSION }),
            found <= SCHEMA_VERSION && (exists|i: int| 0 <= i < self.boards@.len() && !#[trigger] loadable(self.boards@[i])) ==> r is Err
                && r->Err_0 is Decode,
            found <= SCHEMA_VERSION && (forall|i: int| 0 <= i < self.boards@.len() ==> #[trigger] loadable(self.boards@[i])) ==> r is Ok && {
                let p = r->Ok_0;
                &&& p.schema_version == SCHEMA_VERSION
                &&& p.name@ == self.name@
                &&& p.boards@.len() == self.boards@.len()
                &&& forall|i: int| 0 <= i < self.boards@.len() ==> #[trigger] repaired(self.boards@[i], p.boards@[i])
                &&& p.main_board == (if self.main_board < self.boards@.len() { self.main_board } else { 0 })
            },
    {
        if found > SCHEMA_VERSION {
            return Err(SaveError::TooNew { found, supported: SCHEMA_VERSION });
        }
        let mut i: usize = 0;
        while i < self.boards.len()
            invariant
                found <= SCHEMA_VERSION,
                i <= self.boards@.len(),
                forall|j: int| 0 <= j < i ==> #[trigger] loadable(self.boards@[j]),
            decreases self.boards@.len() - i,
        {
            if !loadable_exec(&self.boards[i]) {
                let mut msg = String::new();
                msg.append("图纸超出支持的规模或坐标范围");
                return Err(SaveError::Decode(msg));
            }
            i = i + 1;
        }
        let ghost old_boards = self.boards@;
        let mut p = self;
        let n = p.boards.len();
        let mut k: usize = 0;
        while k < n
            invariant
                n == p.boards@.len(),
                n == old_boards.len(),
                k <= n,
                forall|j: int| 0 <= j < n ==> #[trigger] loadable(old_boards[j]),
                forall|j: int| 0 <= j < k ==> #[trigger] repaired(old_boards[j], p.boards@[j]),
                forall|j: int| k <= j < n ==> #[trigger] p.boards@[j] == old_boards[j],
                p.name@ == self.name@,
                p.main_board == self.main_board,
            decreases n - k,
        {
            let mut b = Board::new();
            std::mem::swap(&mut b, &mut p.boards[k]);
            proof {
                assert(loadable(old_boards[k as int]));
            }
            b.fixup();
            std::mem::swap(&mut b, &mut p.boards[k]);
            k = k + 1;
        }
        p.schema_version = SCHEMA_VERSION;
        if p.main_board >= p.boards.len() {
            p.main_board = 0;
        }
        Ok(p)
    }
}

} // verus!
