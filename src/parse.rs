//! The task file's line format: a task header, a field section and one or
//! more tile sections, each section a run of `'0'`/`'1'` rows.
use vstd::prelude::*;
use crate::grid::{grid_check, represents, views, Grid, GridError};
use crate::solver::{Task, Tile};

verus! {

/// A line that starts with this opens a task, and names it.
pub const TASK_MARKER: &'static str = "= ЗАДАЧА";

/// The line that opens a task's field section.
pub const FIELD_MARKER: &'static str = "Поле:";

/// A line that starts with this opens a tile section, and names the tile.
pub const TILE_MARKER: &'static str = "Фигура";

/// Whether `c` has Unicode's White_Space property.
pub open spec fn is_white_space(c: char) -> bool {
    let u = c as u32;
    ||| 0x9 <= u <= 0xd
    ||| u == 0x20
    ||| u == 0x85
    ||| u == 0xa0
    ||| u == 0x1680
    ||| 0x2000 <= u <= 0x200a
    ||| u == 0x2028
    ||| u == 0x2029
    ||| u == 0x202f
    ||| u == 0x205f
    ||| u == 0x3000
}

/// `s` without its leading white space.
pub open spec fn trim_start(s: Seq<char>) -> Seq<char>
    decreases s.len(),
{
    if s.len() > 0 && is_white_space(s[0]) {
        trim_start(s.drop_first())
    } else {
        s
    }
}

/// `s` without its trailing white space.
pub open spec fn trim_end(s: Seq<char>) -> Seq<char>
    decreases s.len(),
{
    if s.len() > 0 && is_white_space(s.last()) {
        trim_end(s.drop_last())
    } else {
        s
    }
}

/// `s` without its leading and trailing white space.
pub open spec fn trimmed(s: Seq<char>) -> Seq<char> {
    trim_end(trim_start(s))
}

/// Relies on `str::trim`: the line without its leading and trailing
/// characters of Unicode's White_Space property.
#[verifier::external_body]
fn trim(s: &str) -> (r: &str)
    ensures
        r@ == trimmed(s@),
{
    s.trim()
}

/// Why a task file does not describe a list of tasks.
#[derive(Debug, PartialEq, Eq)]
pub enum ParseError {
    /// The file ended before the named task's field section.
    MissingField(String),
    /// The named task has no tile section.
    MissingTiles(String),
    /// The named task's field rows are no grid.
    BadField(String, GridError),
    /// The rows of the task's named tile are no grid.
    BadTile(String, String, GridError),
}

/// A parse error with its names read as characters.
pub ghost enum ParseFailure {
    MissingField(Seq<char>),
    MissingTiles(Seq<char>),
    BadField(Seq<char>, GridError),
    BadTile(Seq<char>, Seq<char>, GridError),
}

/// One tile section: its header line and its rows.
pub ghost struct TileText {
    pub id: Seq<char>,
    pub rows: Seq<Seq<char>>,
}

/// One task as the file writes it.
pub ghost struct TaskText {
    pub id: Seq<char>,
    pub field: Seq<Seq<char>>,
    pub tiles: Seq<TileText>,
}

/// Where the reader stands between two lines.
#[derive(Debug, Clone, Copy)]
pub enum Phase {
    WaitingTask,
    WaitingField,
    ReadingField,
    WaitingTile,
    ReadingTile,
}

/// The reader's whole state: the phase, the current task's header, the rows
/// of the section being read, the task's field rows and finished tiles, and
/// the current tile's header.
pub ghost struct Reader {
    pub phase: Phase,
    pub id: Seq<char>,
    pub rows: Seq<Seq<char>>,
    pub field: Seq<Seq<char>>,
    pub tiles: Seq<TileText>,
    pub tile_id: Seq<char>,
}

pub open spec fn is_prefix_of(p: Seq<char>, s: Seq<char>) -> bool {
    p.len() <= s.len() && s.subrange(0, p.len() as int) == p
}

/// A non-empty line of `'0'` and `'1'` only.
pub open spec fn is_grid_row(t: Seq<char>) -> bool {
    t.len() > 0 && forall|k: int| 0 <= k < t.len() ==> #[trigger] t[k] == '0' || t[k] == '1'
}

/// Phases that hand a line on without reading it come later in this order.
pub open spec fn rank(p: Phase) -> int {
    match p {
        Phase::ReadingField | Phase::ReadingTile => 2,
        Phase::WaitingTile => 1,
        _ => 0,
    }
}

pub open spec fn start() -> Reader {
    Reader {
        phase: Phase::WaitingTask,
        id: Seq::empty(),
        rows: Seq::empty(),
        field: Seq::empty(),
        tiles: Seq::empty(),
        tile_id: Seq::empty(),
    }
}

/// The outcome of reading `lines` from line `i` on, in state `st`, with the
/// tasks `done` already read. Past the last line the reader sees the end of
/// the file, which closes the open section and task.
pub open spec fn read_from(
    lines: Seq<Seq<char>>,
    i: int,
    st: Reader,
    done: Seq<TaskText>,
) -> Result<Seq<TaskText>, ParseFailure>
    decreases lines.len() - i, rank(st.phase),
{
    if i < 0 || i > lines.len() {
        Ok(done)
    } else {
        let eof = i == lines.len();
        let t = if eof {
            Seq::empty()
        } else {
            trimmed(lines[i])
        };
        match st.phase {
            Phase::WaitingTask => {
                if eof {
                    Ok(done)
                } else if is_prefix_of(TASK_MARKER@, t) {
                    read_from(lines, i + 1, Reader { phase: Phase::WaitingField, id: t, ..st }, done)
                } else {
                    read_from(lines, i + 1, st, done)
                }
            },
            Phase::WaitingField => {
                if eof {
                    Err(ParseFailure::MissingField(st.id))
                } else if t == FIELD_MARKER@ {
                    read_from(
                        lines,
                        i + 1,
                        Reader { phase: Phase::ReadingField, rows: Seq::empty(), ..st },
                        done,
                    )
                } else {
                    read_from(lines, i + 1, st, done)
                }
            },
            Phase::ReadingField => {
                if !eof && is_grid_row(t) {
                    read_from(lines, i + 1, Reader { rows: st.rows.push(t), ..st }, done)
                } else if grid_check(st.rows) is Some {
                    Err(ParseFailure::BadField(st.id, grid_check(st.rows)->Some_0))
                } else {
                    read_from(
                        lines,
                        i,
                        Reader {
                            phase: Phase::WaitingTile,
                            field: st.rows,
                            tiles: Seq::empty(),
                            ..st
                        },
                        done,
                    )
                }
            },
            Phase::WaitingTile => {
                let at_task = eof || is_prefix_of(TASK_MARKER@, t);
                if at_task && st.tiles.len() == 0 {
                    Err(ParseFailure::MissingTiles(st.id))
                } else if at_task {
                    read_from(
                        lines,
                        i,
                        Reader { phase: Phase::WaitingTask, ..st },
                        done.push(TaskText { id: st.id, field: st.field, tiles: st.tiles }),
                    )
                } else if is_prefix_of(TILE_MARKER@, t) {
                    read_from(
                        lines,
                        i + 1,
                        Reader { phase: Phase::ReadingTile, tile_id: t, rows: Seq::empty(), ..st },
                        done,
                    )
                } else {
                    read_from(lines, i + 1, st, done)
                }
            },
            Phase::ReadingTile => {
                if !eof && is_grid_row(t) {
                    read_from(lines, i + 1, Reader { rows: st.rows.push(t), ..st }, done)
                } else if grid_check(st.rows) is Some {
                    Err(ParseFailure::BadTile(st.id, st.tile_id, grid_check(st.rows)->Some_0))
                } else {
                    read_from(
                        lines,
                        i,
                        Reader {
                            phase: Phase::WaitingTile,
                            tiles: st.tiles.push(TileText { id: st.tile_id, rows: st.rows }),
                            ..st
                        },
                        done,
                    )
                }
            },
        }
    }
}

/// The outcome of reading a whole file.
pub open spec fn read_all(lines: Seq<Seq<char>>) -> Result<Seq<TaskText>, ParseFailure> {
    read_from(lines, 0, start(), Seq::empty())
}

pub open spec fn failure_of(e: ParseError) -> ParseFailure {
    match e {
        ParseError::MissingField(id) => ParseFailure::MissingField(id@),
        ParseError::MissingTiles(id) => ParseFailure::MissingTiles(id@),
        ParseError::BadField(id, g) => ParseFailure::BadField(id@, g),
        ParseError::BadTile(id, tid, g) => ParseFailure::BadTile(id@, tid@, g),
    }
}

/// `task` holds the grids that `text` writes.
pub open spec fn task_of_text(task: Task, text: TaskText) -> bool {
    &&& task.id@ == text.id
    &&& represents(task.field, text.field)
    &&& task.tiles@.len() == text.tiles.len()
    &&& forall|j: int|
        0 <= j < text.tiles.len() ==> represents(#[trigger] task.tiles@[j].area, text.tiles[j].rows)
}

/// Reads the tasks that the lines of a task file describe, in file order;
/// fails at the first line, or at the end of the file, where the text stops
/// making sense.
#[verifier::rlimit(40)]
pub fn parse_tasks(lines: &Vec<String>) -> (r: Result<Vec<Task>, ParseError>)
    ensures
        match (r, read_all(views(lines@))) {
            (Ok(ts), Ok(texts)) => ts@.len() == texts.len() && forall|k: int|
                0 <= k < texts.len() ==> task_of_text(#[trigger] ts@[k], texts[k]),
            (Err(e), Err(f)) => failure_of(e) == f,
            _ => false,
        },
        r is Ok ==> forall|k: int| 0 <= k < r->Ok_0@.len() ==> (#[trigger] r->Ok_0@[k]).wf(),
{
    let ghost lv = views(lines@);
    let n = lines.len();
    let mut i: usize = 0;
    let mut phase = Phase::WaitingTask;
    let mut id = String::new();
    let mut rows: Vec<String> = Vec::new();
    let mut field = Grid { rows: 1, cols: 1, row_mask: 1, bits: 0 };
    let mut tiles: Vec<Tile> = Vec::new();
    let mut tile_id = String::new();
    let mut tasks: Vec<Task> = Vec::new();
    let ghost mut field_rows: Seq<Seq<char>> = Seq::empty();
    let ghost mut tile_texts: Seq<TileText> = Seq::empty();
    let ghost mut done: Seq<TaskText> = Seq::empty();
    assert(views(rows@) =~= Seq::<Seq<char>>::empty());
    assert(start() == Reader {
        phase,
        id: id@,
        rows: views(rows@),
        field: field_rows,
        tiles: tile_texts,
        tile_id: tile_id@,
    });
    loop
        invariant
            n == lines@.len(),
            lv == views(lines@),
            i <= n,
            read_all(lv) == read_from(
                lv,
                i as int,
                Reader {
                    phase,
                    id: id@,
                    rows: views(rows@),
                    field: field_rows,
                    tiles: tile_texts,
                    tile_id: tile_id@,
                },
                done,
            ),
            tasks@.len() == done.len(),
            forall|k: int| 0 <= k < done.len() ==> task_of_text(#[trigger] tasks@[k], done[k]),
            forall|k: int| 0 <= k < tasks@.len() ==> (#[trigger] tasks@[k]).wf(),
            phase is WaitingTile || phase is ReadingTile ==> {
                &&& represents(field, field_rows)
                &&& tiles@.len() == tile_texts.len()
                &&& forall|j: int|
                    0 <= j < tile_texts.len() ==> represents(
                        #[trigger] tiles@[j].area,
                        tile_texts[j].rows,
                    )
            },
        decreases n - i, rank(phase),
    {
        let eof = i == n;
        let ghost tv: Seq<char> = if eof {
            Seq::empty()
        } else {
            trimmed(lv[i as int])
        };
        let t: &str = if eof {
            proof {
                reveal_strlit("");
            }
            ""
        } else {
            trim(lines[i].as_str())
        };
        assert(t@ == tv);
        let ghost old_rows = views(rows@);
        match phase {
            Phase::WaitingTask => {
                if eof {
                    return Ok(tasks);
                }
                if starts_with(t, TASK_MARKER) {
                    id = String::from_str(t);
                    phase = Phase::WaitingField;
                }
                i += 1;
            },
            Phase::WaitingField => {
                if eof {
                    return Err(ParseError::MissingField(id));
                }
                if same_text(t, FIELD_MARKER) {
                    rows = Vec::new();
                    assert(views(rows@) =~= Seq::<Seq<char>>::empty());
                    phase = Phase::ReadingField;
                }
                i += 1;
            },
            Phase::ReadingField => {
                if !eof && grid_row(t) {
                    rows.push(String::from_str(t));
                    assert(views(rows@) =~= old_rows.push(tv));
                    i += 1;
                } else {
                    match Grid::from_rows(&rows) {
                        Err(e) => {
                            return Err(ParseError::BadField(id, e));
                        },
                        Ok(g) => {
                            field = g;
                            tiles = Vec::new();
                            proof {
                                field_rows = old_rows;
                                tile_texts = Seq::empty();
                            }
                            phase = Phase::WaitingTile;
                        },
                    }
                }
            },
            Phase::WaitingTile => {
                let at_task = eof || starts_with(t, TASK_MARKER);
                if at_task && tiles.len() == 0 {
                    return Err(ParseError::MissingTiles(id));
                }
                if at_task {
                    let finished = tiles;
                    tiles = Vec::new();
                    let task = Task { id: id.clone(), field, tiles: finished };
                    assert(task_of_text(task, TaskText { id: id@, field: field_rows, tiles: tile_texts }));
                    tasks.push(task);
                    proof {
                        done = done.push(TaskText { id: id@, field: field_rows, tiles: tile_texts });
                    }
                    phase = Phase::WaitingTask;
                } else {
                    if starts_with(t, TILE_MARKER) {
                        tile_id = String::from_str(t);
                        rows = Vec::new();
                        assert(views(rows@) =~= Seq::<Seq<char>>::empty());
                        phase = Phase::ReadingTile;
                    }
                    i += 1;
                }
            },
            Phase::ReadingTile => {
                if !eof && grid_row(t) {
                    rows.push(String::from_str(t));
                    assert(views(rows@) =~= old_rows.push(tv));
                    i += 1;
                } else {
                    match Grid::from_rows(&rows) {
                        Err(e) => {
                            return Err(ParseError::BadTile(id, tile_id, e));
                        },
                        Ok(g) => {
                            tiles.push(Tile { area: g });
                            proof {
                                tile_texts = tile_texts.push(TileText { id: tile_id@, rows: old_rows });
                            }
                            phase = Phase::WaitingTile;
                        },
                    }
                }
            },
        }
    }
}

/// Whether `s` starts with `p`.
fn starts_with(s: &str, p: &str) -> (b: bool)
    ensures
        b == is_prefix_of(p@, s@),
{
    let pl = p.unicode_len();
    let sl = s.unicode_len();
    if pl > sl {
        return false;
    }
    let mut k: usize = 0;
    while k < pl
        invariant
            k <= pl,
            pl == p@.len(),
            sl == s@.len(),
            pl <= sl,
            forall|j: int| 0 <= j < k ==> #[trigger] s@[j] == p@[j],
        decreases pl - k,
    {
        if s.get_char(k) != p.get_char(k) {
            assert(s@.subrange(0, pl as int)[k as int] != p@[k as int]);
            return false;
        }
        k += 1;
    }
    assert(s@.subrange(0, pl as int) =~= p@);
    true
}

/// Whether `s` is exactly `p`.
fn same_text(s: &str, p: &str) -> (b: bool)
    ensures
        b == (s@ == p@),
{
    let b = starts_with(s, p) && s.unicode_len() == p.unicode_len();
    proof {
        if b {
            assert(s@ =~= s@.subrange(0, p@.len() as int));
        }
        if s@ == p@ {
            assert(s@.subrange(0, p@.len() as int) =~= p@);
        }
    }
    b
}

/// Whether `s` is a non-empty row of `'0'` and `'1'`.
fn grid_row(s: &str) -> (b: bool)
    ensures
        b == is_grid_row(s@),
{
    let n = s.unicode_len();
    if n == 0 {
        return false;
    }
    let mut k: usize = 0;
    while k < n
        invariant
            k <= n,
            n == s@.len(),
            forall|j: int| 0 <= j < k ==> #[trigger] s@[j] == '0' || s@[j] == '1',
        decreases n - k,
    {
        let c = s.get_char(k);
        if c != '0' && c != '1' {
            return false;
        }
        k += 1;
    }
    true
}

} // verus!
