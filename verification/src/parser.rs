//! The record-format parser: line-oriented text becomes a list of
//! records.
//!
//! Line forms:
//! - `# ...` — a comment, ignored;
//! - `@key value` — a header line: it closes the current record and
//!   starts a new one; the value may continue on following plain
//!   lines ("ml" form) or, with `@key<<DELIM`, run until a line equal
//!   to `DELIM` ("delimited" form);
//! - `.key value` — a data node, with the same two forms;
//! - `.key, v1, v2` or `.key|` — a multi-value node: the value text
//!   splits on the separator written right after the key (`|` splits
//!   on newlines) and one node per non-empty trimmed segment is
//!   emitted, all sharing the key;
//! - `+key value` — an attribute of the most recently emitted nodes
//!   (each sibling of a multi-value expansion receives it);
//! - blank lines close a continuing value; other lines continue a
//!   value in the "ml" form and are skipped otherwise.
//!
//! A line that starts like a token but fits no form is skipped, and
//! closes a continuing value.  Content before the first header goes
//! to an implicit record with collection `mr:default`, which the
//! caller may drop.

use vstd::prelude::*;
use crate::memo::{Memo, memo_eq_spec};
use crate::node::{Node, NodeV, spec_attr_set};
use crate::text;
use crate::text::{
    ScanClass,
    char_alphabetic,
    is_alpha_char,
    is_ws,
    join_nl,
    scan,
    scan_exec,
    spec_lines,
    spec_trim,
    split_on,
};
use crate::value::{Value, ValueV, spec_value_of_text};

verus! {

/// What a single line means.
pub enum LineClass {
    Blank,
    Comment,
    Plain,
    Bad,
    Header { key: Seq<char>, rest: Seq<char> },
    HeaderEof { key: Seq<char>, delim: Seq<char> },
    Data { key: Seq<char>, rest: Seq<char> },
    DataEof { key: Seq<char>, delim: Seq<char> },
    Multi { key: Seq<char>, sep: char, rest: Seq<char> },
    MultiEof { key: Seq<char>, sep: char, delim: Seq<char> },
    Attr { key: Seq<char>, rest: Seq<char> },
}

/// Classifies one line.  Keys start with a letter and continue with
/// letters, digits or `:`; after the key come either the end of the
/// line, whitespace and the value, `<<` and a delimiter token, or
/// (for data nodes) a separator `,` or `|`.
pub open spec fn spec_classify(l: Seq<char>) -> LineClass {
    if spec_trim(l).len() == 0 {
        LineClass::Blank
    } else if l[0] == '#' {
        LineClass::Comment
    } else if l[0] == '@' || l[0] == '.' || l[0] == '+' {
        if 1 < l.len() && char_alphabetic(l[1]) {
            let kend = scan(l, ScanClass::KeyChar, 2);
            let key = l.subrange(1, kend);
            if l[0] == '+' {
                if kend == l.len() || is_ws(l[kend]) {
                    LineClass::Attr { key, rest: l.subrange(kend, l.len() as int) }
                } else {
                    LineClass::Bad
                }
            } else if kend == l.len() || is_ws(l[kend]) {
                let rest = l.subrange(kend, l.len() as int);
                if l[0] == '@' {
                    LineClass::Header { key, rest }
                } else {
                    LineClass::Data { key, rest }
                }
            } else if kend + 1 < l.len() && l[kend] == '<' && l[kend + 1] == '<' && spec_trim(
                l.subrange(kend + 2, l.len() as int),
            ).len() > 0 {
                let delim = spec_trim(l.subrange(kend + 2, l.len() as int));
                if l[0] == '@' {
                    LineClass::HeaderEof { key, delim }
                } else {
                    LineClass::DataEof { key, delim }
                }
            } else if l[0] == '.' && (l[kend] == ',' || l[kend] == '|') {
                let sep = l[kend];
                let p = kend + 1;
                if p + 1 < l.len() && l[p] == '<' && l[p + 1] == '<' && spec_trim(
                    l.subrange(p + 2, l.len() as int),
                ).len() > 0 {
                    LineClass::MultiEof {
                        key,
                        sep,
                        delim: spec_trim(l.subrange(p + 2, l.len() as int)),
                    }
                } else {
                    LineClass::Multi { key, sep, rest: l.subrange(p, l.len() as int) }
                }
            } else {
                LineClass::Bad
            }
        } else {
            LineClass::Bad
        }
    } else {
        LineClass::Plain
    }
}

/// Executable counterpart of `LineClass`.
pub enum CLine {
    Blank,
    Comment,
    Plain,
    Bad,
    Header { key: String, rest: Vec<char> },
    HeaderEof { key: String, delim: Vec<char> },
    Data { key: String, rest: Vec<char> },
    DataEof { key: String, delim: Vec<char> },
    Multi { key: String, sep: char, rest: Vec<char> },
    MultiEof { key: String, sep: char, delim: Vec<char> },
    Attr { key: String, rest: Vec<char> },
}

impl View for CLine {
    type V = LineClass;

    open spec fn view(&self) -> LineClass {
        match self {
            CLine::Blank => LineClass::Blank,
            CLine::Comment => LineClass::Comment,
            CLine::Plain => LineClass::Plain,
            CLine::Bad => LineClass::Bad,
            CLine::Header { key, rest } => LineClass::Header { key: key@, rest: rest@ },
            CLine::HeaderEof { key, delim } => LineClass::HeaderEof { key: key@, delim: delim@ },
            CLine::Data { key, rest } => LineClass::Data { key: key@, rest: rest@ },
            CLine::DataEof { key, delim } => LineClass::DataEof { key: key@, delim: delim@ },
            CLine::Multi { key, sep, rest } => LineClass::Multi {
                key: key@,
                sep: *sep,
                rest: rest@,
            },
            CLine::MultiEof { key, sep, delim } => LineClass::MultiEof {
                key: key@,
                sep: *sep,
                delim: delim@,
            },
            CLine::Attr { key, rest } => LineClass::Attr { key: key@, rest: rest@ },
        }
    }
}

/// Classifies one line.
pub fn classify(l: &[char]) -> (r: CLine)
    ensures
        r@ == spec_classify(l@),
{
    let trimmed = text::trim_chars(l);
    if trimmed.len() == 0 {
        return CLine::Blank;
    }
    let c0 = l[0];
    if c0 == '#' {
        return CLine::Comment;
    }
    if !(c0 == '@' || c0 == '.' || c0 == '+') {
        return CLine::Plain;
    }
    if !(1 < l.len() && is_alpha_char(l[1])) {
        return CLine::Bad;
    }
    let kend = scan_exec(l, ScanClass::KeyChar, 2);
    let key = text::string_of_range(l, 1, kend);
    if c0 == '+' {
        if kend == l.len() || text::ws_char(l[kend]) {
            return CLine::Attr { key, rest: text::vec_of_range(l, kend, l.len()) };
        }
        return CLine::Bad;
    }
    if kend == l.len() || text::ws_char(l[kend]) {
        let rest = text::vec_of_range(l, kend, l.len());
        if c0 == '@' {
            return CLine::Header { key, rest };
        }
        return CLine::Data { key, rest };
    }
    if l.len() - kend >= 2 && l[kend] == '<' && l[kend + 1] == '<' {
        let delim = text::trim_range(l, kend + 2, l.len());
        if delim.len() > 0 {
            if c0 == '@' {
                return CLine::HeaderEof { key, delim };
            }
            return CLine::DataEof { key, delim };
        }
    }
    if c0 == '.' && (l[kend] == ',' || l[kend] == '|') {
        let sep = l[kend];
        let p = kend + 1;
        if l.len() - p >= 2 && l[p] == '<' && l[p + 1] == '<' {
            let delim = text::trim_range(l, p + 2, l.len());
            if delim.len() > 0 {
                return CLine::MultiEof { key, sep, delim };
            }
        }
        return CLine::Multi { key, sep, rest: text::vec_of_range(l, p, l.len()) };
    }
    CLine::Bad
}

/// A value still being collected.
#[verifier::ext_equal]
pub enum PendV {
    Closed,
    Ml { header: bool, key: Seq<char>, sep: Option<char>, parts: Seq<Seq<char>> },
    Eof {
        header: bool,
        key: Seq<char>,
        sep: Option<char>,
        delim: Seq<char>,
        parts: Seq<Seq<char>>,
    },
}

/// The parser's state between lines.
#[verifier::ext_equal]
pub struct PStateV {
    pub memos: Seq<Seq<NodeV>>,
    pub cur: Seq<NodeV>,
    pub pend: PendV,
    pub last_n: int,
}

/// The state is well formed: the current record has a header, and
/// the attribute window fits inside it.
pub open spec fn st_wf(st: PStateV) -> bool {
    st.cur.len() >= 1 && 0 <= st.last_n <= st.cur.len()
}

/// Nodes for the non-empty trimmed segments, in order, sharing a key.
pub open spec fn segs_to_nodes(key: Seq<char>, segs: Seq<Seq<char>>) -> Seq<NodeV>
    decreases segs.len(),
{
    if segs.len() == 0 {
        Seq::empty()
    } else {
        let rest = segs_to_nodes(key, segs.drop_last());
        let t = spec_trim(segs.last());
        if t.len() > 0 {
            rest.push(NodeV { key, value: spec_value_of_text(t), attrs: Seq::empty() })
        } else {
            rest
        }
    }
}

/// Closes a pending value, emitting its node or nodes.
pub open spec fn spec_finalize(st: PStateV) -> PStateV {
    match st.pend {
        PendV::Closed => st,
        PendV::Ml { header, key, sep, parts } => {
            let txt = spec_trim(join_nl(parts));
            if header {
                PStateV {
                    memos: st.memos.push(st.cur),
                    cur: seq![
                        NodeV { key, value: spec_value_of_text(txt), attrs: Seq::empty() },
                    ],
                    pend: PendV::Closed,
                    last_n: 1,
                }
            } else {
                match sep {
                    Option::None => PStateV {
                        cur: st.cur.push(
                            NodeV { key, value: spec_value_of_text(txt), attrs: Seq::empty() },
                        ),
                        pend: PendV::Closed,
                        last_n: 1,
                        ..st
                    },
                    Option::Some(c) => {
                        let ns = segs_to_nodes(
                            key,
                            split_on(
                                txt,
                                if c == '|' {
                                    '\n'
                                } else {
                                    c
                                },
                            ),
                        );
                        PStateV {
                            cur: st.cur + ns,
                            pend: PendV::Closed,
                            last_n: ns.len() as int,
                            ..st
                        }
                    },
                }
            }
        },
        PendV::Eof { header, key, sep, delim, parts } => {
            let txt = spec_trim(join_nl(parts));
            if header {
                PStateV {
                    memos: st.memos.push(st.cur),
                    cur: seq![
                        NodeV { key, value: ValueV::MultiLineText(txt, delim), attrs: Seq::empty() },
                    ],
                    pend: PendV::Closed,
                    last_n: 1,
                }
            } else {
                match sep {
                    Option::None => PStateV {
                        cur: st.cur.push(
                            NodeV {
                                key,
                                value: ValueV::MultiLineText(txt, delim),
                                attrs: Seq::empty(),
                            },
                        ),
                        pend: PendV::Closed,
                        last_n: 1,
                        ..st
                    },
                    Option::Some(c) => {
                        let ns = segs_to_nodes(
                            key,
                            split_on(
                                txt,
                                if c == '|' {
                                    '\n'
                                } else {
                                    c
                                },
                            ),
                        );
                        PStateV {
                            cur: st.cur + ns,
                            pend: PendV::Closed,
                            last_n: ns.len() as int,
                            ..st
                        }
                    },
                }
            }
        },
    }
}

/// The record with an attribute set on its last `last_n` nodes.
pub open spec fn attr_applied(cur: Seq<NodeV>, last_n: int, k: Seq<char>, v: ValueV) -> Seq<
    NodeV,
> {
    Seq::new(
        cur.len(),
        |i: int|
            if i >= cur.len() - last_n {
                NodeV { key: cur[i].key, value: cur[i].value, attrs: spec_attr_set(cur[i].attrs, k, v) }
            } else {
                cur[i]
            },
    )
}

/// One line of progress.  While a delimited value is open, every line
/// but the closing delimiter is content; otherwise the line's class
/// decides.
pub open spec fn spec_step(st: PStateV, line: Seq<char>) -> PStateV {
    match st.pend {
        PendV::Eof { header, key, sep, delim, parts } => {
            if line == delim {
                spec_finalize(st)
            } else {
                PStateV {
                    pend: PendV::Eof { header, key, sep, delim, parts: parts.push(line) },
                    ..st
                }
            }
        },
        _ => match spec_classify(line) {
            LineClass::Blank => spec_finalize(st),
            LineClass::Comment => spec_finalize(st),
            LineClass::Bad => spec_finalize(st),
            LineClass::Plain => match st.pend {
                PendV::Ml { header, key, sep, parts } => PStateV {
                    pend: PendV::Ml { header, key, sep, parts: parts.push(line) },
                    ..st
                },
                _ => st,
            },
            LineClass::Header { key, rest } => {
                let f = spec_finalize(st);
                PStateV {
                    pend: PendV::Ml { header: true, key, sep: Option::None, parts: seq![rest] },
                    ..f
                }
            },
            LineClass::HeaderEof { key, delim } => {
                let f = spec_finalize(st);
                PStateV {
                    pend: PendV::Eof {
                        header: true,
                        key,
                        sep: Option::None,
                        delim,
                        parts: Seq::empty(),
                    },
                    ..f
                }
            },
            LineClass::Data { key, rest } => {
                let f = spec_finalize(st);
                PStateV {
                    pend: PendV::Ml { header: false, key, sep: Option::None, parts: seq![rest] },
                    ..f
                }
            },
            LineClass::DataEof { key, delim } => {
                let f = spec_finalize(st);
                PStateV {
                    pend: PendV::Eof {
                        header: false,
                        key,
                        sep: Option::None,
                        delim,
                        parts: Seq::empty(),
                    },
                    ..f
                }
            },
            LineClass::Multi { key, sep, rest } => {
                let f = spec_finalize(st);
                PStateV {
                    pend: PendV::Ml {
                        header: false,
                        key,
                        sep: Option::Some(sep),
                        parts: seq![rest],
                    },
                    ..f
                }
            },
            LineClass::MultiEof { key, sep, delim } => {
                let f = spec_finalize(st);
                PStateV {
                    pend: PendV::Eof {
                        header: false,
                        key,
                        sep: Option::Some(sep),
                        delim,
                        parts: Seq::empty(),
                    },
                    ..f
                }
            },
            LineClass::Attr { key, rest } => {
                let f = spec_finalize(st);
                PStateV {
                    cur: attr_applied(
                        f.cur,
                        f.last_n,
                        key,
                        spec_value_of_text(spec_trim(rest)),
                    ),
                    ..f
                }
            },
        },
    }
}

/// The state after all lines.
pub open spec fn spec_run(st: PStateV, lines: Seq<Seq<char>>) -> PStateV
    decreases lines.len(),
{
    if lines.len() == 0 {
        st
    } else {
        spec_run(spec_step(st, lines[0]), lines.drop_first())
    }
}

/// The parser's starting state: an implicit record with collection
/// `mr:default` collects content before the first header.
pub open spec fn spec_init_state() -> PStateV {
    PStateV {
        memos: Seq::empty(),
        cur: seq![
            NodeV { key: "mr:default"@, value: spec_value_of_text(""@), attrs: Seq::empty() },
        ],
        pend: PendV::Closed,
        last_n: 1,
    }
}

/// What a text parses to: the records in order of their headers, the
/// implicit first record dropped when `drop_first` asks for it.
pub open spec fn spec_parse_memos(t: Seq<char>, drop_first: bool) -> Seq<Seq<NodeV>> {
    let fin = spec_finalize(spec_run(spec_init_state(), spec_lines(t)));
    let ms = fin.memos.push(fin.cur);
    if drop_first {
        ms.drop_first()
    } else {
        ms
    }
}

proof fn lemma_finalize_wf(st: PStateV)
    requires
        st_wf(st),
    ensures
        st_wf(spec_finalize(st)),
        spec_finalize(st).pend is Closed,
{
    match st.pend {
        PendV::Ml { header, key, sep, parts } => {
            if !header {
                match sep {
                    Option::Some(c) => {
                        lemma_segs_to_nodes_len(
                            key,
                            split_on(
                                spec_trim(join_nl(parts)),
                                if c == '|' {
                                    '\n'
                                } else {
                                    c
                                },
                            ),
                        );
                    },
                    Option::None => {},
                }
            }
        },
        PendV::Eof { header, key, sep, delim, parts } => {
            if !header {
                match sep {
                    Option::Some(c) => {
                        lemma_segs_to_nodes_len(
                            key,
                            split_on(
                                spec_trim(join_nl(parts)),
                                if c == '|' {
                                    '\n'
                                } else {
                                    c
                                },
                            ),
                        );
                    },
                    Option::None => {},
                }
            }
        },
        PendV::Closed => {},
    }
}

proof fn lemma_segs_to_nodes_len(key: Seq<char>, segs: Seq<Seq<char>>)
    ensures
        0 <= segs_to_nodes(key, segs).len() <= segs.len(),
    decreases segs.len(),
{
    if segs.len() > 0 {
        lemma_segs_to_nodes_len(key, segs.drop_last());
    }
}

proof fn lemma_step_wf(st: PStateV, line: Seq<char>)
    requires
        st_wf(st),
    ensures
        st_wf(spec_step(st, line)),
{
    lemma_finalize_wf(st);
}

/// Appending one line to a run.
proof fn lemma_run_snoc(st: PStateV, lines: Seq<Seq<char>>, k: int)
    requires
        0 <= k < lines.len(),
    ensures
        spec_run(st, lines.subrange(0, k + 1)) == spec_step(
            spec_run(st, lines.subrange(0, k)),
            lines[k],
        ),
    decreases k,
{
    if k == 0 {
        let one = lines.subrange(0, 1);
        assert(one[0] == lines[0]);
        assert(one.drop_first() =~= Seq::<Seq<char>>::empty());
        assert(lines.subrange(0, 0) =~= Seq::<Seq<char>>::empty());
        assert(spec_run(st, one) == spec_run(spec_step(st, one[0]), one.drop_first()));
    } else {
        let st1 = spec_step(st, lines[0]);
        let dl = lines.drop_first();
        lemma_run_snoc(st1, dl, k - 1);
        let a = lines.subrange(0, k + 1);
        let b = lines.subrange(0, k);
        assert(a[0] == lines[0]);
        assert(b[0] == lines[0]);
        assert(a.drop_first() =~= dl.subrange(0, k));
        assert(b.drop_first() =~= dl.subrange(0, k - 1));
        assert(dl[k - 1] == lines[k]);
        assert(spec_run(st, a) == spec_run(st1, a.drop_first()));
        assert(spec_run(st, b) == spec_run(st1, b.drop_first()));
    }
}

/// Executable counterpart of `PendV`.
enum Pend {
    Closed,
    Ml { header: bool, key: String, sep: Option<char>, parts: Vec<Vec<char>> },
    Eof { header: bool, key: String, sep: Option<char>, delim: Vec<char>, parts: Vec<Vec<char>> },
}

impl View for Pend {
    type V = PendV;

    closed spec fn view(&self) -> PendV {
        match self {
            Pend::Closed => PendV::Closed,
            Pend::Ml { header, key, sep, parts } => PendV::Ml {
                header: *header,
                key: key@,
                sep: *sep,
                parts: parts@.map_values(|p: Vec<char>| p@),
            },
            Pend::Eof { header, key, sep, delim, parts } => PendV::Eof {
                header: *header,
                key: key@,
                sep: *sep,
                delim: delim@,
                parts: parts@.map_values(|p: Vec<char>| p@),
            },
        }
    }
}

/// Executable parser state.
struct PState {
    memos: Vec<Memo>,
    cur: Memo,
    pend: Pend,
    last_n: usize,
}

impl View for PState {
    type V = PStateV;

    closed spec fn view(&self) -> PStateV {
        PStateV {
            memos: self.memos@.map_values(|m: Memo| m@),
            cur: self.cur@,
            pend: self.pend@,
            last_n: self.last_n as int,
        }
    }
}

/// Closes a pending value in the executable state.
#[verifier::loop_isolation(false)]
fn finalize_exec(st: &mut PState)
    requires
        st_wf(old(st)@),
    ensures
        final(st)@ == spec_finalize(old(st)@),
        st_wf(final(st)@),
        final(st)@.pend is Closed,
{
    proof {
        lemma_finalize_wf(old(st)@);
    }
    let mut pend = Pend::Closed;
    core::mem::swap(&mut pend, &mut st.pend);
    let ghost mid = st@;
    let ghost opend = pend@;
    proof {
        assert(old(st)@.pend == opend);
        assert(mid.memos == old(st)@.memos && mid.cur == old(st)@.cur && mid.pend is Closed
            && mid.last_n == old(st)@.last_n);
    }
    match pend {
        Pend::Closed => {},
        Pend::Ml { header, key, sep, parts } => {
            let ghost gkey = key@;
            let ghost gparts = parts@.map_values(|p: Vec<char>| p@);
            let joined = text::join_nl_exec(&parts);
            let trimmed = text::trim_chars(joined.as_slice());
            let txt = text::string_of(trimmed.as_slice());
            finish_value(st, header, key, sep, Value::from_text(txt.as_str()), trimmed.as_slice());
            proof {
                let f = spec_finalize(old(st)@);
                assert(old(st)@.pend == PendV::Ml { header, key: gkey, sep, parts: gparts });
                assert(trimmed@ == spec_trim(join_nl(gparts)));
                assert(st@.memos == f.memos && st@.cur == f.cur && st@.pend == f.pend
                    && st@.last_n == f.last_n);
                assert(st@ == f);
            }
        },
        Pend::Eof { header, key, sep, delim, parts } => {
            let ghost gkey = key@;
            let ghost gdelim = delim@;
            let ghost gparts = parts@.map_values(|p: Vec<char>| p@);
            let joined = text::join_nl_exec(&parts);
            let trimmed = text::trim_chars(joined.as_slice());
            let txt = text::string_of(trimmed.as_slice());
            let dl = text::string_of(delim.as_slice());
            finish_value(
                st,
                header,
                key,
                sep,
                Value::MultiLineText(txt, dl),
                trimmed.as_slice(),
            );
            proof {
                let f = spec_finalize(old(st)@);
                assert(old(st)@.pend == PendV::Eof {
                    header,
                    key: gkey,
                    sep,
                    delim: gdelim,
                    parts: gparts,
                });
                assert(trimmed@ == spec_trim(join_nl(gparts)));
                assert(st@.memos == f.memos && st@.cur == f.cur && st@.pend == f.pend
                    && st@.last_n == f.last_n);
                assert(st@ == f);
            }
        },
    }
}

/// Emits the node or nodes a closed value denotes.  `whole` carries
/// the finished value (already trimmed and, for a delimited block,
/// already holding its delimiter token); `txt` carries the raw value
/// text for multi-value splitting.
#[verifier::loop_isolation(false)]
fn finish_value(st: &mut PState, header: bool, key: String, sep: Option<char>, whole: Value, txt: &[char])
    requires
        st_wf(old(st)@),
        old(st)@.pend is Closed,
    ensures
        final(st)@ == (if header {
            PStateV {
                memos: old(st)@.memos.push(old(st)@.cur),
                cur: seq![NodeV { key: key@, value: whole@, attrs: Seq::empty() }],
                pend: PendV::Closed,
                last_n: 1,
            }
        } else {
            match sep {
                Option::None => PStateV {
                    cur: old(st)@.cur.push(
                        NodeV { key: key@, value: whole@, attrs: Seq::empty() },
                    ),
                    pend: PendV::Closed,
                    last_n: 1,
                    ..old(st)@
                },
                Option::Some(c) => {
                    let ns = segs_to_nodes(
                        key@,
                        split_on(
                            txt@,
                            if c == '|' {
                                '\n'
                            } else {
                                c
                            },
                        ),
                    );
                    PStateV {
                        cur: old(st)@.cur + ns,
                        pend: PendV::Closed,
                        last_n: ns.len() as int,
                        ..old(st)@
                    }
                },
            }
        }),
        st_wf(final(st)@),
        final(st)@.pend is Closed,
{
    if header {
        let node = Node::new(key.as_str(), whole);
        proof {
            assert(node@.attrs =~= Seq::<(Seq<char>, ValueV)>::empty());
        }
        let mut taken = crate::memo::Memo::from_header(node);
        core::mem::swap(&mut taken, &mut st.cur);
        st.memos.push(taken);
        st.last_n = 1;
        proof {
            assert(st@.memos =~= old(st)@.memos.push(old(st)@.cur));
            assert(st@.cur =~= seq![NodeV { key: key@, value: whole@, attrs: Seq::empty() }]);
        }
        return ;
    }
    match sep {
        None => {
            let node = Node::new(key.as_str(), whole);
            proof {
                assert(node@.attrs =~= Seq::<(Seq<char>, ValueV)>::empty());
            }
            st.cur.push(node);
            st.last_n = 1;
        },
        Some(c) => {
            let split_c: char = if c == '|' {
                '\n'
            } else {
                c
            };
            let segs = text::split_chars(txt, split_c);
            let ghost gsegs = split_on(txt@, split_c);
            let mut count: usize = 0;
            let mut k: usize = 0;
            proof {
                assert(segs_to_nodes(key@, gsegs.subrange(0, 0)) =~= Seq::<NodeV>::empty());
                assert(old(st)@.cur + segs_to_nodes(key@, gsegs.subrange(0, 0)) =~= old(st)@.cur);
            }
            while k < segs.len()
                invariant
                    k <= segs@.len(),
                    segs@.map_values(|x: Vec<char>| x@) == gsegs,
                    count <= k,
                    st@.cur == old(st)@.cur + segs_to_nodes(key@, gsegs.subrange(0, k as int)),
                    count == segs_to_nodes(key@, gsegs.subrange(0, k as int)).len(),
                    st@.memos == old(st)@.memos,
                    st@.pend == old(st)@.pend,
                decreases segs@.len() - k,
            {
                let ghost pre = st@.cur;
                let seg = &segs[k];
                let trimmed = text::trim_chars(seg.as_slice());
                if trimmed.len() > 0 {
                    let vtxt = text::string_of(trimmed.as_slice());
                    let node = Node::new(key.as_str(), Value::from_text(vtxt.as_str()));
                    proof {
                        assert(node@.attrs =~= Seq::<(Seq<char>, ValueV)>::empty());
                    }
                    st.cur.push(node);
                    count += 1;
                }
                proof {
                    let s1 = gsegs.subrange(0, k + 1 as int);
                    assert(s1.drop_last() =~= gsegs.subrange(0, k as int));
                    assert(s1.last() == gsegs[k as int]);
                    assert(gsegs[k as int] == seg@);
                    if spec_trim(seg@).len() > 0 {
                        assert(st@.cur =~= old(st)@.cur + segs_to_nodes(key@, s1));
                    } else {
                        assert(st@.cur =~= old(st)@.cur + segs_to_nodes(key@, s1));
                    }
                }
                k += 1;
            }
            st.last_n = count;
            proof {
                assert(gsegs.subrange(0, gsegs.len() as int) =~= gsegs);
            }
        },
    }
}


/// One line of progress in the executable state.
#[verifier::loop_isolation(false)]
fn step_exec(st: &mut PState, line: &[char])
    requires
        st_wf(old(st)@),
    ensures
        final(st)@ == spec_step(old(st)@, line@),
        st_wf(final(st)@),
{
    proof {
        lemma_step_wf(old(st)@, line@);
    }
    let in_eof = match &st.pend {
        Pend::Eof { .. } => true,
        _ => false,
    };
    if in_eof {
        let matches_delim = match &st.pend {
            Pend::Eof { delim, .. } => text::chars_eq(line, delim.as_slice()),
            _ => false,
        };
        if matches_delim {
            finalize_exec(st);
        } else {
            let mut pend = Pend::Closed;
            core::mem::swap(&mut pend, &mut st.pend);
            match pend {
                Pend::Eof { header, key, sep, delim, parts } => {
                    let ghost gparts = parts@.map_values(|p: Vec<char>| p@);
                    let mut parts2 = parts;
                    parts2.push(text::vec_of_range(line, 0, line.len()));
                    proof {
                        assert(line@.subrange(0, line@.len() as int) =~= line@);
                        assert(parts2@.map_values(|p: Vec<char>| p@) =~= gparts.push(line@));
                    }
                    st.pend = Pend::Eof { header, key, sep, delim, parts: parts2 };
                },
                _ => {
                    proof {
                        assert(false);
                    }
                },
            }
        }
        return ;
    }
    let cls = classify(line);
    match cls {
        CLine::Blank => {
            finalize_exec(st);
        },
        CLine::Comment => {
            finalize_exec(st);
        },
        CLine::Bad => {
            finalize_exec(st);
        },
        CLine::Plain => {
            let in_ml = match &st.pend {
                Pend::Ml { .. } => true,
                _ => false,
            };
            if in_ml {
                let mut pend = Pend::Closed;
                core::mem::swap(&mut pend, &mut st.pend);
                match pend {
                    Pend::Ml { header, key, sep, parts } => {
                        let ghost gparts = parts@.map_values(|p: Vec<char>| p@);
                        let mut parts2 = parts;
                        parts2.push(text::vec_of_range(line, 0, line.len()));
                        proof {
                            assert(line@.subrange(0, line@.len() as int) =~= line@);
                            assert(parts2@.map_values(|p: Vec<char>| p@) =~= gparts.push(line@));
                        }
                        st.pend = Pend::Ml { header, key, sep, parts: parts2 };
                    },
                    _ => {
                        proof {
                            assert(false);
                        }
                    },
                }
            }
        },
        CLine::Header { key, rest } => {
            finalize_exec(st);
            let mut parts: Vec<Vec<char>> = Vec::new();
            parts.push(rest);
            proof {
                assert(parts@.map_values(|p: Vec<char>| p@) =~= seq![parts@[0]@]);
            }
            st.pend = Pend::Ml { header: true, key, sep: None, parts };
        },
        CLine::HeaderEof { key, delim } => {
            finalize_exec(st);
            let parts: Vec<Vec<char>> = Vec::new();
            proof {
                assert(parts@.map_values(|p: Vec<char>| p@) =~= Seq::<Seq<char>>::empty());
            }
            st.pend = Pend::Eof { header: true, key, sep: None, delim, parts };
        },
        CLine::Data { key, rest } => {
            finalize_exec(st);
            let mut parts: Vec<Vec<char>> = Vec::new();
            parts.push(rest);
            proof {
                assert(parts@.map_values(|p: Vec<char>| p@) =~= seq![parts@[0]@]);
            }
            st.pend = Pend::Ml { header: false, key, sep: None, parts };
        },
        CLine::DataEof { key, delim } => {
            finalize_exec(st);
            let parts: Vec<Vec<char>> = Vec::new();
            proof {
                assert(parts@.map_values(|p: Vec<char>| p@) =~= Seq::<Seq<char>>::empty());
            }
            st.pend = Pend::Eof { header: false, key, sep: None, delim, parts };
        },
        CLine::Multi { key, sep, rest } => {
            finalize_exec(st);
            let mut parts: Vec<Vec<char>> = Vec::new();
            parts.push(rest);
            proof {
                assert(parts@.map_values(|p: Vec<char>| p@) =~= seq![parts@[0]@]);
            }
            st.pend = Pend::Ml { header: false, key, sep: Some(sep), parts };
        },
        CLine::MultiEof { key, sep, delim } => {
            finalize_exec(st);
            let parts: Vec<Vec<char>> = Vec::new();
            proof {
                assert(parts@.map_values(|p: Vec<char>| p@) =~= Seq::<Seq<char>>::empty());
            }
            st.pend = Pend::Eof { header: false, key, sep: Some(sep), delim, parts };
        },
        CLine::Attr { key, rest } => {
            finalize_exec(st);
            let ghost f = st@;
            let trimmed = text::trim_range(rest.as_slice(), 0, rest.len());
            let vtxt = text::string_of(trimmed.as_slice());
            let ghost gval = spec_value_of_text(spec_trim(rest@));
            proof {
                assert(rest@.subrange(0, rest@.len() as int) =~= rest@);
            }
            let d = st.cur.data_count();
            let n = st.last_n;
            if n == 0 {
                proof {
                    assert(st@.cur =~= attr_applied(f.cur, f.last_n, key@, gval));
                }
                return ;
            }
            let base = d - (n - 1);
            let mut t: usize = 0;
            while t < n
                invariant
                    t <= n,
                    base + n == d + 1,
                    d + 1 == f.cur.len(),
                    n == f.last_n,
                    st@.memos == f.memos,
                    st@.pend == f.pend,
                    st@.last_n == f.last_n,
                    st@.cur.len() == f.cur.len(),
                    forall|i: int|
                        0 <= i < f.cur.len() ==> #[trigger] st@.cur[i] == (if base <= i < base + t {
                            NodeV {
                                key: f.cur[i].key,
                                value: f.cur[i].value,
                                attrs: spec_attr_set(f.cur[i].attrs, key@, gval),
                            }
                        } else {
                            f.cur[i]
                        }),
                decreases n - t,
            {
                let idx = base + t;
                st.cur.set_node_attr(idx, key.as_str(), Value::from_text(vtxt.as_str()));
                t += 1;
            }
            proof {
                assert(st@.cur =~= attr_applied(f.cur, f.last_n, key@, gval));
            }
        },
    }
}

/// Parses a whole text into records: one record per header line, plus
/// the implicit `mr:default` record collecting content before the
/// first header, which `drop_first` removes.
#[verifier::loop_isolation(false)]
pub fn parse_memos(input: &str, drop_first: bool) -> (r: Vec<Memo>)
    ensures
        r@.map_values(|m: Memo| m@) == spec_parse_memos(input@, drop_first),
        !drop_first ==> r@.len() >= 1,
{
    let v = text::chars_of(input);
    let lines = text::lines_of(v.as_slice());
    let ghost glines = spec_lines(input@);
    let mut st = PState {
        memos: Vec::new(),
        cur: Memo::new("mr:default", ""),
        pend: Pend::Closed,
        last_n: 1,
    };
    proof {
        assert(st@.memos =~= Seq::<Seq<NodeV>>::empty());
        assert(st@.cur =~~= spec_init_state().cur);
        assert(st@ == spec_init_state());
        assert(glines.subrange(0, 0) =~= Seq::<Seq<char>>::empty());
    }
    let mut k: usize = 0;
    while k < lines.len()
        invariant
            k <= lines@.len(),
            lines@.map_values(|x: Vec<char>| x@) == glines,
            st@ == spec_run(spec_init_state(), glines.subrange(0, k as int)),
            st_wf(st@),
        decreases lines@.len() - k,
    {
        proof {
            assert(lines@.map_values(|x: Vec<char>| x@)[k as int] == glines[k as int]);
            lemma_run_snoc(spec_init_state(), glines, k as int);
        }
        step_exec(&mut st, lines[k].as_slice());
        k += 1;
    }
    proof {
        assert(glines.subrange(0, glines.len() as int) =~= glines);
    }
    finalize_exec(&mut st);
    let PState { mut memos, cur, pend: _, last_n: _ } = st;
    let ghost gmemos = memos@.map_values(|m: Memo| m@);
    memos.push(cur);
    proof {
        assert(memos@.map_values(|m: Memo| m@) =~= gmemos.push(cur@));
    }
    if drop_first {
        let ghost pre = memos@.map_values(|m: Memo| m@);
        memos.remove(0);
        proof {
            assert(memos@.map_values(|m: Memo| m@) =~= pre.drop_first());
        }
    }
    memos
}


/// Recognizer type for the record grammar's individual rules.
#[derive(Debug)]
pub struct MemoParser;

impl MemoParser {
    /// True if the first line of the text is a header line (plain or
    /// delimited form).
    pub fn header_ok(input: &str) -> (r: bool)
        ensures
            r == (spec_classify(spec_lines(input@)[0]) is Header || spec_classify(
                spec_lines(input@)[0],
            ) is HeaderEof),
    {
        let v = text::chars_of(input);
        let lines = text::lines_of(v.as_slice());
        proof {
            text::lemma_split_on_len(input@, '\n');
            assert(lines@.len() == spec_lines(input@).len());
            assert(spec_lines(input@).len() >= 1);
            assert(lines@.map_values(|x: Vec<char>| x@)[0] == spec_lines(input@)[0]);
        }
        match classify(lines[0].as_slice()) {
            CLine::Header { .. } => true,
            CLine::HeaderEof { .. } => true,
            _ => false,
        }
    }
}

/// The lines before the first one equal to the delimiter, if any.
pub open spec fn take_until(lines: Seq<Seq<char>>, delim: Seq<char>) -> Option<Seq<Seq<char>>>
    decreases lines.len(),
{
    if lines.len() == 0 {
        None
    } else if lines[0] == delim {
        Some(Seq::empty())
    } else {
        match take_until(lines.drop_first(), delim) {
            None => None,
            Some(r) => Some(seq![lines[0]] + r),
        }
    }
}

/// Collects the lines from position 1 up to the delimiter line.
#[verifier::loop_isolation(false)]
fn collect_until(lines: &Vec<Vec<char>>, delim: &[char]) -> (r: Option<Vec<Vec<char>>>)
    requires
        lines@.len() >= 1,
    ensures
        match r {
            Some(parts) => take_until(
                lines@.map_values(|x: Vec<char>| x@).drop_first(),
                delim@,
            ) == Some(parts@.map_values(|x: Vec<char>| x@)),
            None => take_until(
                lines@.map_values(|x: Vec<char>| x@).drop_first(),
                delim@,
            ) is None,
        },
{
    let ghost ls = lines@.map_values(|x: Vec<char>| x@);
    let n = lines.len();
    let mut parts: Vec<Vec<char>> = Vec::new();
    let mut k: usize = 1;
    proof {
        assert(ls.drop_first() =~= ls.subrange(1, n as int));
    }
    while k < n
        invariant
            1 <= k <= n == ls.len(),
            parts@.map_values(|x: Vec<char>| x@) == ls.subrange(1, k as int),
            take_until(ls.subrange(1, n as int), delim@) == match take_until(
                ls.subrange(k as int, n as int),
                delim@,
            ) {
                None => None::<Seq<Seq<char>>>,
                Some(r) => Some(ls.subrange(1, k as int) + r),
            },
        decreases n - k,
    {
        let ghost suffix = ls.subrange(k as int, n as int);
        proof {
            assert(suffix[0] == ls[k as int]);
            assert(suffix.drop_first() =~= ls.subrange(k + 1 as int, n as int));
        }
        if text::chars_eq(lines[k].as_slice(), delim) {
            proof {
                assert(take_until(suffix, delim@) == Some(Seq::<Seq<char>>::empty()));
                assert(ls.subrange(1, k as int) + Seq::<Seq<char>>::empty() =~= ls.subrange(
                    1,
                    k as int,
                ));
            }
            return Some(parts);
        }
        let ghost pre = parts@.map_values(|x: Vec<char>| x@);
        parts.push(text::vec_of_range(lines[k].as_slice(), 0, lines[k].len()));
        proof {
            assert(lines@[k as int]@.subrange(0, lines@[k as int]@.len() as int) =~= ls[k as int]);
            assert(parts@.map_values(|x: Vec<char>| x@) =~= pre.push(ls[k as int]));
            assert(pre.push(ls[k as int]) =~= ls.subrange(1, k + 1 as int));
            if take_until(ls.subrange(k + 1 as int, n as int), delim@) is Some {
                let rr = take_until(ls.subrange(k + 1 as int, n as int), delim@).unwrap();
                assert(ls.subrange(1, k as int) + (seq![ls[k as int]] + rr) =~= ls.subrange(
                    1,
                    k + 1 as int,
                ) + rr);
            }
        }
        k += 1;
    }
    proof {
        assert(ls.subrange(n as int, n as int) =~= Seq::<Seq<char>>::empty());
    }
    None
}

/// What the plain ("ml") header rule yields on a text.
pub open spec fn sp_rule_header_ml(t: Seq<char>) -> Option<NodeV> {
    let ls = spec_lines(t);
    match spec_classify(ls[0]) {
        LineClass::Header { key, rest } => Some(
            NodeV {
                key,
                value: spec_value_of_text(spec_trim(join_nl(seq![rest] + ls.drop_first()))),
                attrs: Seq::empty(),
            },
        ),
        _ => None,
    }
}

/// What the delimited header rule yields on a text.
pub open spec fn sp_rule_header_eof(t: Seq<char>) -> Option<NodeV> {
    let ls = spec_lines(t);
    match spec_classify(ls[0]) {
        LineClass::HeaderEof { key, delim } => match take_until(ls.drop_first(), delim) {
            Some(parts) => Some(
                NodeV {
                    key,
                    value: spec_value_of_text(spec_trim(join_nl(parts))),
                    attrs: Seq::empty(),
                },
            ),
            None => None,
        },
        _ => None,
    }
}

/// Parses a header in the plain form: the value continues on the
/// following lines.
pub fn rule_header_node_ml(input: &str) -> (r: Result<Node, ()>)
    ensures
        match r {
            Ok(n) => sp_rule_header_ml(input@) == Some(n@),
            Err(_) => sp_rule_header_ml(input@) is None,
        },
{
    let v = text::chars_of(input);
    let lines = text::lines_of(v.as_slice());
    proof {
        text::lemma_split_on_len(input@, '\n');
        assert(lines@.len() == spec_lines(input@).len());
        assert(spec_lines(input@).len() >= 1);
        assert(lines@.map_values(|x: Vec<char>| x@)[0] == spec_lines(input@)[0]);
    }
    match classify(lines[0].as_slice()) {
        CLine::Header { key, rest } => {
            let node = ml_node(&key, rest, &lines);
            Ok(node)
        },
        _ => Err(()),
    }
}

/// Parses a header in the delimited form.
pub fn rule_header_node_eof(input: &str) -> (r: Result<Node, ()>)
    ensures
        match r {
            Ok(n) => sp_rule_header_eof(input@) == Some(n@),
            Err(_) => sp_rule_header_eof(input@) is None,
        },
{
    let v = text::chars_of(input);
    let lines = text::lines_of(v.as_slice());
    proof {
        text::lemma_split_on_len(input@, '\n');
        assert(lines@.len() == spec_lines(input@).len());
        assert(spec_lines(input@).len() >= 1);
        assert(lines@.map_values(|x: Vec<char>| x@)[0] == spec_lines(input@)[0]);
        assert(lines@.map_values(|x: Vec<char>| x@).drop_first() == spec_lines(
            input@,
        ).drop_first());
    }
    match classify(lines[0].as_slice()) {
        CLine::HeaderEof { key, delim } => {
            match collect_until(&lines, delim.as_slice()) {
                Some(parts) => Ok(eof_node(&key, &parts)),
                None => Err(()),
            }
        },
        _ => Err(()),
    }
}

/// Parses a header in either form.
pub fn rule_header_node(input: &str) -> (r: Result<Node, ()>)
    ensures
        match r {
            Ok(n) => sp_rule_header_eof(input@) == Some(n@) || (sp_rule_header_eof(input@) is None
                && sp_rule_header_ml(input@) == Some(n@)),
            Err(_) => sp_rule_header_eof(input@) is None && sp_rule_header_ml(input@) is None,
        },
{
    match rule_header_node_eof(input) {
        Ok(n) => Ok(n),
        Err(_) => rule_header_node_ml(input),
    }
}

/// The trimmed value text a token line and its continuation lines
/// denote.
#[verifier::loop_isolation(false)]
fn ml_text(rest: Vec<char>, lines: &Vec<Vec<char>>) -> (r: Vec<char>)
    requires
        lines@.len() >= 1,
    ensures
        r@ == spec_trim(
            join_nl(seq![rest@] + lines@.map_values(|x: Vec<char>| x@).drop_first()),
        ),
{
    let ghost ls = lines@.map_values(|x: Vec<char>| x@);
    let ghost grest = rest@;
    let mut parts: Vec<Vec<char>> = Vec::new();
    parts.push(rest);
    proof {
        assert(parts@.map_values(|x: Vec<char>| x@) =~= seq![grest] + ls.subrange(1, 1));
    }
    let mut k: usize = 1;
    while k < lines.len()
        invariant
            1 <= k <= lines@.len(),
            ls == lines@.map_values(|x: Vec<char>| x@),
            parts@.map_values(|x: Vec<char>| x@) == seq![grest] + ls.subrange(1, k as int),
        decreases lines@.len() - k,
    {
        let ghost pre = parts@.map_values(|x: Vec<char>| x@);
        parts.push(text::vec_of_range(lines[k].as_slice(), 0, lines[k].len()));
        proof {
            assert(lines@[k as int]@.subrange(0, lines@[k as int]@.len() as int) =~= ls[k as int]);
            assert(parts@.map_values(|x: Vec<char>| x@) =~= pre.push(ls[k as int]));
            assert(pre.push(ls[k as int]) =~= seq![grest] + ls.subrange(1, k + 1 as int));
        }
        k += 1;
    }
    proof {
        assert(ls.subrange(1, ls.len() as int) =~= ls.drop_first());
    }
    let joined = text::join_nl_exec(&parts);
    text::trim_chars(joined.as_slice())
}

/// Joins the token line's remainder with the following lines and
/// makes a node from the trimmed text.
fn ml_node(key: &String, rest: Vec<char>, lines: &Vec<Vec<char>>) -> (r: Node)
    requires
        lines@.len() >= 1,
    ensures
        r@ == (NodeV {
            key: key@,
            value: spec_value_of_text(
                spec_trim(
                    join_nl(
                        seq![rest@] + lines@.map_values(|x: Vec<char>| x@).drop_first(),
                    ),
                ),
            ),
            attrs: Seq::empty(),
        }),
{
    let trimmed = ml_text(rest, lines);
    let txt = text::string_of(trimmed.as_slice());
    let node = Node::new(key.as_str(), Value::from_text(txt.as_str()));
    proof {
        assert(node@.attrs =~= Seq::<(Seq<char>, ValueV)>::empty());
    }
    node
}

/// Makes a node from the trimmed joined lines of a delimited block.
fn eof_node(key: &String, parts: &Vec<Vec<char>>) -> (r: Node)
    ensures
        r@ == (NodeV {
            key: key@,
            value: spec_value_of_text(
                spec_trim(join_nl(parts@.map_values(|x: Vec<char>| x@))),
            ),
            attrs: Seq::empty(),
        }),
{
    let joined = text::join_nl_exec(parts);
    let trimmed = text::trim_chars(joined.as_slice());
    let txt = text::string_of(trimmed.as_slice());
    let node = Node::new(key.as_str(), Value::from_text(txt.as_str()));
    proof {
        assert(node@.attrs =~= Seq::<(Seq<char>, ValueV)>::empty());
    }
    node
}


/// The value-continuation lines (attribute lines excluded).
pub open spec fn ml_parts(lines: Seq<Seq<char>>) -> Seq<Seq<char>>
    decreases lines.len(),
{
    if lines.len() == 0 {
        Seq::empty()
    } else {
        let rest = ml_parts(lines.drop_last());
        if spec_classify(lines.last()) is Attr {
            rest
        } else {
            rest.push(lines.last())
        }
    }
}

/// The attributes the attribute lines set, applied in order.
pub open spec fn ml_attrs(
    base: Seq<(Seq<char>, ValueV)>,
    lines: Seq<Seq<char>>,
) -> Seq<(Seq<char>, ValueV)>
    decreases lines.len(),
{
    if lines.len() == 0 {
        base
    } else {
        let rest = ml_attrs(base, lines.drop_last());
        match spec_classify(lines.last()) {
            LineClass::Attr { key, rest: av } => spec_attr_set(
                rest,
                key,
                spec_value_of_text(spec_trim(av)),
            ),
            _ => rest,
        }
    }
}

proof fn lemma_ml_snoc(ls: Seq<Seq<char>>, k: int)
    requires
        1 <= k < ls.len(),
    ensures
        ml_parts(ls.subrange(1, k + 1)) == (if spec_classify(ls[k]) is Attr {
            ml_parts(ls.subrange(1, k))
        } else {
            ml_parts(ls.subrange(1, k)).push(ls[k])
        }),
        ml_attrs(Seq::empty(), ls.subrange(1, k + 1)) == (match spec_classify(ls[k]) {
            LineClass::Attr { key, rest: av } => spec_attr_set(
                ml_attrs(Seq::empty(), ls.subrange(1, k)),
                key,
                spec_value_of_text(spec_trim(av)),
            ),
            _ => ml_attrs(Seq::empty(), ls.subrange(1, k)),
        }),
{
    let s = ls.subrange(1, k + 1);
    assert(s.drop_last() =~= ls.subrange(1, k));
    assert(s.last() == ls[k]);
}

/// What the plain ("ml") data-node rule yields: the node with its
/// continued value and the attributes of its following `+` lines.
pub open spec fn sp_rule_data_ml(t: Seq<char>) -> Option<NodeV> {
    let ls = spec_lines(t);
    match spec_classify(ls[0]) {
        LineClass::Data { key, rest } => Some(
            NodeV {
                key,
                value: spec_value_of_text(
                    spec_trim(join_nl(seq![rest] + ml_parts(ls.drop_first()))),
                ),
                attrs: ml_attrs(Seq::empty(), ls.drop_first()),
            },
        ),
        _ => None,
    }
}

/// What the delimited data-node rule yields.
pub open spec fn sp_rule_data_eof(t: Seq<char>) -> Option<NodeV> {
    let ls = spec_lines(t);
    match spec_classify(ls[0]) {
        LineClass::DataEof { key, delim } => match take_until(ls.drop_first(), delim) {
            Some(parts) => Some(
                NodeV {
                    key,
                    value: spec_value_of_text(spec_trim(join_nl(parts))),
                    attrs: Seq::empty(),
                },
            ),
            None => None,
        },
        _ => None,
    }
}

/// Parses a data node in the plain form, applying following `+`
/// attribute lines to it.
#[verifier::loop_isolation(false)]
pub fn rule_data_node_ml(input: &str) -> (r: Result<Node, ()>)
    ensures
        match r {
            Ok(n) => sp_rule_data_ml(input@) == Some(n@),
            Err(_) => sp_rule_data_ml(input@) is None,
        },
{
    let v = text::chars_of(input);
    let lines = text::lines_of(v.as_slice());
    let ghost ls = spec_lines(input@);
    proof {
        text::lemma_split_on_len(input@, '\n');
        assert(lines@.len() == ls.len());
        assert(ls.len() >= 1);
        assert(lines@.map_values(|x: Vec<char>| x@)[0] == ls[0]);
    }
    match classify(lines[0].as_slice()) {
        CLine::Data { key, rest } => {
            let ghost grest = rest@;
            // first pass: collect the value parts
            let mut parts: Vec<Vec<char>> = Vec::new();
            parts.push(rest);
            proof {
                assert(ls.subrange(1, 1) =~= Seq::<Seq<char>>::empty());
                assert(parts@.map_values(|x: Vec<char>| x@) =~= seq![grest] + ml_parts(
                    ls.subrange(1, 1),
                ));
            }
            let mut k: usize = 1;
            while k < lines.len()
                invariant
                    1 <= k <= lines@.len(),
                    parts@.map_values(|x: Vec<char>| x@) == seq![grest] + ml_parts(
                        ls.subrange(1, k as int),
                    ),
                decreases lines@.len() - k,
            {
                proof {
                    assert(lines@.map_values(|x: Vec<char>| x@)[k as int] == ls[k as int]);
                    lemma_ml_snoc(ls, k as int);
                }
                let ghost pre = parts@.map_values(|x: Vec<char>| x@);
                let cls = classify(lines[k].as_slice());
                match cls {
                    CLine::Attr { .. } => {},
                    _ => {
                        parts.push(text::vec_of_range(lines[k].as_slice(), 0, lines[k].len()));
                        proof {
                            assert(lines@[k as int]@.subrange(
                                0,
                                lines@[k as int]@.len() as int,
                            ) =~= ls[k as int]);
                            assert(parts@.map_values(|x: Vec<char>| x@) =~= pre.push(
                                ls[k as int],
                            ));
                            assert(pre.push(ls[k as int]) =~= seq![grest] + ml_parts(
                                ls.subrange(1, k + 1 as int),
                            ));
                        }
                    },
                }
                k += 1;
            }
            proof {
                assert(ls.subrange(1, ls.len() as int) =~= ls.drop_first());
            }
            let joined = text::join_nl_exec(&parts);
            let trimmed = text::trim_chars(joined.as_slice());
            let txt = text::string_of(trimmed.as_slice());
            let mut node = Node::new(key.as_str(), Value::from_text(txt.as_str()));
            proof {
                assert(node@.attrs =~= Seq::<(Seq<char>, ValueV)>::empty());
                assert(node@.attrs =~= ml_attrs(Seq::empty(), ls.subrange(1, 1)));
            }
            // second pass: apply the attribute lines in order
            let mut k2: usize = 1;
            while k2 < lines.len()
                invariant
                    1 <= k2 <= lines@.len(),
                    node@.key == key@,
                    node@.value == spec_value_of_text(
                        spec_trim(join_nl(seq![grest] + ml_parts(ls.drop_first()))),
                    ),
                    node@.attrs == ml_attrs(Seq::empty(), ls.subrange(1, k2 as int)),
                decreases lines@.len() - k2,
            {
                proof {
                    assert(lines@.map_values(|x: Vec<char>| x@)[k2 as int] == ls[k2 as int]);
                    lemma_ml_snoc(ls, k2 as int);
                }
                let cls = classify(lines[k2].as_slice());
                match cls {
                    CLine::Attr { key: ak, rest: av } => {
                        let at = text::trim_range(av.as_slice(), 0, av.len());
                        let astr = text::string_of(at.as_slice());
                        proof {
                            assert(av@.subrange(0, av@.len() as int) =~= av@);
                        }
                        node.set_attr(ak.as_str(), Value::from_text(astr.as_str()));
                    },
                    _ => {},
                }
                k2 += 1;
            }
            proof {
                assert(ls.subrange(1, ls.len() as int) =~= ls.drop_first());
            }
            Ok(node)
        },
        _ => Err(()),
    }
}

/// Parses a data node in the delimited form.
pub fn rule_data_node_eof(input: &str) -> (r: Result<Node, ()>)
    ensures
        match r {
            Ok(n) => sp_rule_data_eof(input@) == Some(n@),
            Err(_) => sp_rule_data_eof(input@) is None,
        },
{
    let v = text::chars_of(input);
    let lines = text::lines_of(v.as_slice());
    proof {
        text::lemma_split_on_len(input@, '\n');
        assert(lines@.len() == spec_lines(input@).len());
        assert(spec_lines(input@).len() >= 1);
        assert(lines@.map_values(|x: Vec<char>| x@)[0] == spec_lines(input@)[0]);
        assert(lines@.map_values(|x: Vec<char>| x@).drop_first() == spec_lines(
            input@,
        ).drop_first());
    }
    match classify(lines[0].as_slice()) {
        CLine::DataEof { key, delim } => {
            match collect_until(&lines, delim.as_slice()) {
                Some(parts) => Ok(eof_node(&key, &parts)),
                None => Err(()),
            }
        },
        _ => Err(()),
    }
}

/// Parses a data node in either form.
pub fn rule_data_node(input: &str) -> (r: Result<Node, ()>)
    ensures
        match r {
            Ok(n) => sp_rule_data_eof(input@) == Some(n@) || (sp_rule_data_eof(input@) is None
                && sp_rule_data_ml(input@) == Some(n@)),
            Err(_) => sp_rule_data_eof(input@) is None && sp_rule_data_ml(input@) is None,
        },
{
    match rule_data_node_eof(input) {
        Ok(n) => Ok(n),
        Err(_) => rule_data_node_ml(input),
    }
}

/// One node per non-empty trimmed segment of the split value text.
#[verifier::loop_isolation(false)]
fn split_nodes(key: &String, txt: &[char], sep: char) -> (r: Vec<Node>)
    ensures
        r@.map_values(|n: Node| n@) == segs_to_nodes(
            key@,
            split_on(
                txt@,
                if sep == '|' {
                    '\n'
                } else {
                    sep
                },
            ),
        ),
{
    let split_c: char = if sep == '|' {
        '\n'
    } else {
        sep
    };
    let segs = text::split_chars(txt, split_c);
    let ghost gsegs = split_on(txt@, split_c);
    let mut r: Vec<Node> = Vec::new();
    proof {
        assert(r@.map_values(|n: Node| n@) =~= segs_to_nodes(key@, gsegs.subrange(0, 0)));
    }
    let mut k: usize = 0;
    while k < segs.len()
        invariant
            k <= segs@.len(),
            segs@.map_values(|x: Vec<char>| x@) == gsegs,
            r@.map_values(|n: Node| n@) == segs_to_nodes(key@, gsegs.subrange(0, k as int)),
        decreases segs@.len() - k,
    {
        let ghost pre = r@.map_values(|n: Node| n@);
        let seg = &segs[k];
        let trimmed = text::trim_chars(seg.as_slice());
        if trimmed.len() > 0 {
            let vtxt = text::string_of(trimmed.as_slice());
            let node = Node::new(key.as_str(), Value::from_text(vtxt.as_str()));
            proof {
                assert(node@.attrs =~= Seq::<(Seq<char>, ValueV)>::empty());
            }
            r.push(node);
            proof {
                assert(r@.map_values(|n: Node| n@) =~= pre.push(
                    NodeV {
                        key: key@,
                        value: spec_value_of_text(spec_trim(gsegs[k as int])),
                        attrs: Seq::empty(),
                    },
                ));
            }
        }
        proof {
            let s1 = gsegs.subrange(0, k + 1 as int);
            assert(s1.drop_last() =~= gsegs.subrange(0, k as int));
            assert(s1.last() == gsegs[k as int]);
            assert(gsegs[k as int] == seg@);
            assert(r@.map_values(|n: Node| n@) =~= segs_to_nodes(key@, s1));
        }
        k += 1;
    }
    proof {
        assert(gsegs.subrange(0, gsegs.len() as int) =~= gsegs);
    }
    r
}

/// What the plain multi-value rule yields: one node per non-empty
/// trimmed segment.
pub open spec fn sp_rule_multi_ml(t: Seq<char>) -> Option<Seq<NodeV>> {
    let ls = spec_lines(t);
    match spec_classify(ls[0]) {
        LineClass::Multi { key, sep, rest } => Some(
            segs_to_nodes(
                key,
                split_on(
                    spec_trim(join_nl(seq![rest] + ls.drop_first())),
                    if sep == '|' {
                        '\n'
                    } else {
                        sep
                    },
                ),
            ),
        ),
        _ => None,
    }
}

/// What the delimited multi-value rule yields.
pub open spec fn sp_rule_multi_eof(t: Seq<char>) -> Option<Seq<NodeV>> {
    let ls = spec_lines(t);
    match spec_classify(ls[0]) {
        LineClass::MultiEof { key, sep, delim } => match take_until(ls.drop_first(), delim) {
            Some(parts) => Some(
                segs_to_nodes(
                    key,
                    split_on(
                        spec_trim(join_nl(parts)),
                        if sep == '|' {
                            '\n'
                        } else {
                            sep
                        },
                    ),
                ),
            ),
            None => None,
        },
        _ => None,
    }
}

/// Parses a multi-value node in the plain form.
pub fn rule_data_multinode_ml(input: &str) -> (r: Result<Vec<Node>, ()>)
    ensures
        match r {
            Ok(ns) => sp_rule_multi_ml(input@) == Some(ns@.map_values(|n: Node| n@)),
            Err(_) => sp_rule_multi_ml(input@) is None,
        },
{
    let v = text::chars_of(input);
    let lines = text::lines_of(v.as_slice());
    proof {
        text::lemma_split_on_len(input@, '\n');
        assert(lines@.len() == spec_lines(input@).len());
        assert(spec_lines(input@).len() >= 1);
        assert(lines@.map_values(|x: Vec<char>| x@)[0] == spec_lines(input@)[0]);
    }
    match classify(lines[0].as_slice()) {
        CLine::Multi { key, sep, rest } => {
            let txt = ml_text(rest, &lines);
            Ok(split_nodes(&key, txt.as_slice(), sep))
        },
        _ => Err(()),
    }
}

/// Parses a multi-value node in the delimited form.
pub fn rule_data_multinode_eof(input: &str) -> (r: Result<Vec<Node>, ()>)
    ensures
        match r {
            Ok(ns) => sp_rule_multi_eof(input@) == Some(ns@.map_values(|n: Node| n@)),
            Err(_) => sp_rule_multi_eof(input@) is None,
        },
{
    let v = text::chars_of(input);
    let lines = text::lines_of(v.as_slice());
    proof {
        text::lemma_split_on_len(input@, '\n');
        assert(lines@.len() == spec_lines(input@).len());
        assert(spec_lines(input@).len() >= 1);
        assert(lines@.map_values(|x: Vec<char>| x@)[0] == spec_lines(input@)[0]);
        assert(lines@.map_values(|x: Vec<char>| x@).drop_first() == spec_lines(
            input@,
        ).drop_first());
    }
    match classify(lines[0].as_slice()) {
        CLine::MultiEof { key, sep, delim } => {
            match collect_until(&lines, delim.as_slice()) {
                Some(parts) => {
                    let joined = text::join_nl_exec(&parts);
                    let trimmed = text::trim_chars(joined.as_slice());
                    Ok(split_nodes(&key, trimmed.as_slice(), sep))
                },
                None => Err(()),
            }
        },
        _ => Err(()),
    }
}

/// Parses a multi-value node in either form.
pub fn rule_data_multinode(input: &str) -> (r: Result<Vec<Node>, ()>)
    ensures
        match r {
            Ok(ns) => sp_rule_multi_eof(input@) == Some(ns@.map_values(|n: Node| n@)) || (
            sp_rule_multi_eof(input@) is None && sp_rule_multi_ml(input@) == Some(
                ns@.map_values(|n: Node| n@),
            )),
            Err(_) => sp_rule_multi_eof(input@) is None && sp_rule_multi_ml(input@) is None,
        },
{
    match rule_data_multinode_eof(input) {
        Ok(ns) => Ok(ns),
        Err(_) => rule_data_multinode_ml(input),
    }
}

/// Parses a text expected to hold exactly one record.
pub fn rule_memo(input: &str) -> (r: Result<Memo, ()>)
    ensures
        match r {
            Ok(m) => spec_parse_memos(input@, true) == seq![m@],
            Err(_) => spec_parse_memos(input@, true).len() != 1,
        },
{
    let mut ms = parse_memos(input, true);
    if ms.len() == 1 {
        let m = ms.remove(0);
        proof {
            assert(spec_parse_memos(input@, true) =~= seq![m@]);
        }
        Ok(m)
    } else {
        Err(())
    }
}

/// Parses a text into its records, the implicit first record dropped.
pub fn rule_memos(input: &str) -> (r: Result<Vec<Memo>, ()>)
    ensures
        r matches Ok(ms) && ms@.map_values(|m: Memo| m@) == spec_parse_memos(input@, true),
{
    Ok(parse_memos(input, true))
}

/// The length of the directory part of a path: everything up to and
/// including the last slash.
pub open spec fn dir_len(p: Seq<char>) -> int
    decreases p.len(),
{
    if p.len() == 0 {
        0
    } else if p.last() == '/' {
        p.len() as int
    } else {
        dir_len(p.drop_last())
    }
}

proof fn lemma_dir_len(p: Seq<char>)
    ensures
        0 <= dir_len(p) <= p.len(),
        forall|j: int| dir_len(p) <= j < p.len() ==> p[j] != '/',
        dir_len(p) > 0 ==> p[dir_len(p) - 1] == '/',
    decreases p.len(),
{
    if p.len() > 0 && p.last() != '/' {
        lemma_dir_len(p.drop_last());
        assert forall|j: int| dir_len(p) <= j < p.len() implies p[j] != '/' by {
            if j < p.len() - 1 {
                assert(p.drop_last()[j] == p[j]);
            }
        }
        if dir_len(p) > 0 {
            assert(p.drop_last()[dir_len(p) - 1] == p[dir_len(p) - 1]);
        }
    }
}

/// The path a linked file name resolves to: an absolute name stands
/// as it is; a relative name is resolved against the directory of the
/// file currently being parsed.
pub open spec fn spec_import_path(cur: Seq<char>, linked: Seq<char>) -> Seq<char> {
    if linked.len() > 0 && linked[0] == '/' {
        linked
    } else {
        cur.subrange(0, dir_len(cur)) + linked
    }
}

/// Resolves a linked file name against the file currently parsed.
#[verifier::loop_isolation(false)]
pub fn determine_import_path(current_filename: &str, linked_filename: &str) -> (r: String)
    ensures
        r@ == spec_import_path(current_filename@, linked_filename@),
{
    let cur = text::chars_of(current_filename);
    let linked = text::chars_of(linked_filename);
    if linked.len() > 0 && linked[0] == '/' {
        return text::string_of(linked.as_slice());
    }
    proof {
        lemma_dir_len(cur@);
    }
    let mut d = cur.len();
    while d > 0 && cur[d - 1] != '/'
        invariant
            0 <= d <= cur@.len(),
            dir_len(cur@) <= d,
            forall|j: int| d <= j < cur@.len() ==> cur@[j] != '/',
        decreases d,
    {
        proof {
            if d == dir_len(cur@) {
                assert(cur@[d - 1] == '/');
            }
            assert(dir_len(cur@) != d);
            lemma_dir_len_below(cur@, d - 1);
        }
        d -= 1;
    }
    proof {
        if d > 0 {
            assert(cur@[d - 1] == '/');
            assert(dir_len(cur@) == d) by {
                lemma_dir_len(cur@);
                if dir_len(cur@) < d {
                    assert(cur@[d - 1] != '/');
                }
            }
        }
    }
    let mut out = text::vec_of_range(cur.as_slice(), 0, d);
    let mut k: usize = 0;
    while k < linked.len()
        invariant
            k <= linked@.len(),
            out@ == cur@.subrange(0, d as int) + linked@.subrange(0, k as int),
        decreases linked@.len() - k,
    {
        out.push(linked[k]);
        proof {
            assert(out@ =~= cur@.subrange(0, d as int) + linked@.subrange(0, k + 1 as int));
        }
        k += 1;
    }
    proof {
        assert(linked@.subrange(0, linked@.len() as int) =~= linked@);
        assert(out@ =~= spec_import_path(current_filename@, linked_filename@));
    }
    text::string_of(out.as_slice())
}

/// Positions past the directory part never hold a slash.
proof fn lemma_dir_len_below(p: Seq<char>, j: int)
    requires
        0 <= j < p.len(),
        p[j] != '/',
        forall|t: int| j < t < p.len() ==> p[t] != '/',
    ensures
        dir_len(p) <= j,
    decreases p.len(),
{
    if p.len() > 0 {
        if p.last() == '/' {
            assert(p[p.len() - 1] == '/');
            assert(false);
        } else {
            lemma_dir_len(p.drop_last());
            if j < p.len() - 1 {
                assert(p.drop_last()[j] == p[j]);
                assert forall|t: int| j < t < p.len() - 1 implies p.drop_last()[t] != '/' by {
                    assert(p.drop_last()[t] == p[t]);
                }
                lemma_dir_len_below(p.drop_last(), j);
            }
        }
    }
}


/// A value the parser can produce: single- or multi-line text.
pub open spec fn textual_value(v: ValueV) -> bool {
    v is Text || v is MultiLineText
}

pub open spec fn textual_node(n: NodeV) -> bool {
    textual_value(n.value) && forall|i: int|
        0 <= i < n.attrs.len() ==> textual_value((#[trigger] n.attrs[i]).1)
}

pub open spec fn textual_memo(m: Seq<NodeV>) -> bool {
    forall|i: int| 0 <= i < m.len() ==> textual_node(#[trigger] m[i])
}

spec fn textual_state(st: PStateV) -> bool {
    textual_memo(st.cur) && forall|i: int|
        0 <= i < st.memos.len() ==> textual_memo(#[trigger] st.memos[i])
}

proof fn lemma_attr_set_textual(attrs: Seq<(Seq<char>, ValueV)>, k: Seq<char>, v: ValueV)
    requires
        forall|i: int| 0 <= i < attrs.len() ==> textual_value((#[trigger] attrs[i]).1),
        textual_value(v),
    ensures
        forall|i: int|
            0 <= i < spec_attr_set(attrs, k, v).len() ==> textual_value(
                (#[trigger] spec_attr_set(attrs, k, v)[i]).1,
            ),
{
    crate::node::lemma_attr_index_of_range(attrs, k);
    let r = spec_attr_set(attrs, k, v);
    let ix = crate::node::attr_index_of(attrs, k);
    assert forall|i: int| 0 <= i < r.len() implies textual_value((#[trigger] r[i]).1) by {
        if ix >= 0 {
            if i != ix {
                assert(r[i] == attrs[i]);
            }
        } else {
            if i < attrs.len() {
                assert(r[i] == attrs[i]);
            }
        }
    }
}

proof fn lemma_segs_textual(key: Seq<char>, segs: Seq<Seq<char>>)
    ensures
        forall|i: int|
            0 <= i < segs_to_nodes(key, segs).len() ==> textual_node(
                #[trigger] segs_to_nodes(key, segs)[i],
            ),
    decreases segs.len(),
{
    if segs.len() > 0 {
        lemma_segs_textual(key, segs.drop_last());
        let r = segs_to_nodes(key, segs);
        let p = segs_to_nodes(key, segs.drop_last());
        assert forall|i: int| 0 <= i < r.len() implies textual_node(#[trigger] r[i]) by {
            if spec_trim(segs.last()).len() > 0 && i == r.len() - 1 {
                assert(r[i].attrs.len() == 0);
            } else {
                assert(r[i] == p[i]);
            }
        }
    }
}

proof fn lemma_finalize_textual(st: PStateV)
    requires
        textual_state(st),
    ensures
        textual_state(spec_finalize(st)),
{
    match st.pend {
        PendV::Ml { header, key, sep, parts } => {
            match sep {
                Option::Some(c) => {
                    lemma_segs_textual(
                        key,
                        split_on(
                            spec_trim(join_nl(parts)),
                            if c == '|' {
                                '\n'
                            } else {
                                c
                            },
                        ),
                    );
                },
                Option::None => {},
            }
        },
        PendV::Eof { header, key, sep, delim, parts } => {
            match sep {
                Option::Some(c) => {
                    lemma_segs_textual(
                        key,
                        split_on(
                            spec_trim(join_nl(parts)),
                            if c == '|' {
                                '\n'
                            } else {
                                c
                            },
                        ),
                    );
                },
                Option::None => {},
            }
        },
        PendV::Closed => {},
    }
}

proof fn lemma_step_textual(st: PStateV, line: Seq<char>)
    requires
        textual_state(st),
    ensures
        textual_state(spec_step(st, line)),
{
    lemma_finalize_textual(st);
    match st.pend {
        PendV::Eof { .. } => {},
        _ => {
            match spec_classify(line) {
                LineClass::Attr { key, rest } => {
                    let f = spec_finalize(st);
                    let v = spec_value_of_text(spec_trim(rest));
                    let newcur = attr_applied(f.cur, f.last_n, key, v);
                    assert forall|i: int| 0 <= i < newcur.len() implies textual_node(
                        #[trigger] newcur[i],
                    ) by {
                        assert(textual_node(f.cur[i]));
                        if i >= f.cur.len() - f.last_n {
                            lemma_attr_set_textual(f.cur[i].attrs, key, v);
                        }
                    }
                },
                _ => {},
            }
        },
    }
}

proof fn lemma_run_textual(st: PStateV, lines: Seq<Seq<char>>)
    requires
        textual_state(st),
    ensures
        textual_state(spec_run(st, lines)),
    decreases lines.len(),
{
    if lines.len() > 0 {
        lemma_step_textual(st, lines[0]);
        lemma_run_textual(spec_step(st, lines[0]), lines.drop_first());
    }
}

/// Every record the parser yields holds only textual values, in its
/// node values and in its attributes.
pub proof fn lemma_parse_textual(t: Seq<char>, drop_first: bool)
    ensures
        forall|i: int|
            0 <= i < spec_parse_memos(t, drop_first).len() ==> textual_memo(
                #[trigger] spec_parse_memos(t, drop_first)[i],
            ),
{
    lemma_run_textual(spec_init_state(), spec_lines(t));
    lemma_finalize_textual(spec_run(spec_init_state(), spec_lines(t)));
}

/// Idempotence of parsing: the parse result is a function of the text
/// alone, so two parses of the same text yield record lists of the
/// same length whose records compare equal element-wise under record
/// equality.  (Record equality is reflexive on every record the
/// parser can yield, because parsed values are always textual.)
pub proof fn lemma_parse_idempotent(a: Seq<Seq<NodeV>>, b: Seq<Seq<NodeV>>, t: Seq<char>, drop_first: bool)
    requires
        a == spec_parse_memos(t, drop_first),
        b == spec_parse_memos(t, drop_first),
    ensures
        a.len() == b.len(),
        forall|i: int| 0 <= i < a.len() ==> memo_eq_spec(#[trigger] a[i], b[i]),
{
    lemma_parse_textual(t, drop_first);
    assert forall|i: int| 0 <= i < a.len() implies memo_eq_spec(#[trigger] a[i], b[i]) by {
        assert(textual_memo(a[i]));
        let m = a[i];
        assert forall|j: int| 0 <= j < m.len() implies crate::node::node_eq_spec(
            #[trigger] m[j],
            m[j],
        ) by {
            assert(textual_node(m[j]));
        }
    }
}

} // verus!
