//! DEX `debug_info_item` parser (parameter and local variable names).

use std::collections::HashMap;

use vstd::prelude::*;

use crate::error::{truncated, DexError, Result};
use crate::leb128::{
    lemma_read_leb_consumed, lemma_reads_shift, lemma_uleb_read_at, read_sleb128, read_uleb128, read_uleb128p1,
    spec_read_sleb128, spec_read_uleb128, spec_read_uleb128p1, uleb_encode, wrap_i32,
};

verus! {

broadcast use vstd::std_specs::hash::group_hash_axioms;

/// DBG_* opcodes from the Android DEX format.
pub const DBG_END_SEQUENCE: u8 = 0x00;
pub const DBG_ADVANCE_PC: u8 = 0x01;
pub const DBG_ADVANCE_LINE: u8 = 0x02;
pub const DBG_START_LOCAL: u8 = 0x03;
pub const DBG_START_LOCAL_EXTENDED: u8 = 0x04;
pub const DBG_END_LOCAL: u8 = 0x05;
pub const DBG_RESTART_LOCAL: u8 = 0x06;
pub const DBG_SET_PROLOGUE_END: u8 = 0x07;
pub const DBG_SET_EPILOGUE_BEGIN: u8 = 0x08;
pub const DBG_SET_FILE: u8 = 0x09;

/// One `DBG_START_LOCAL` / restart entry (register may host several over the method).
#[derive(Clone, Debug, PartialEq, Eq)]
pub struct DebugLocal {
    pub name: String,
    /// DEX type descriptor when present (e.g. `F`, `D`, `Ljava/lang/String;`).
    pub type_desc: Option<String>,
}

/// Parsed debug information for one method.
#[derive(Clone, Debug)]
pub struct DebugInfo {
    pub line_start: u32,
    /// Parameter names in declaration order (`None` = unnamed).
    pub parameter_names: Vec<Option<String>>,
    /// Best known local name per register (from START_LOCAL / RESTART_LOCAL).
    pub register_names: HashMap<u32, String>,
    /// Best known local type descriptor per register (e.g. `F`, `D`, `Ljava/lang/String;`).
    pub register_types: HashMap<u32, String>,
    /// All locals that lived on each register, in debug order (handles D8 reuse).
    pub register_locals: HashMap<u32, Vec<DebugLocal>>,
}

impl Default for DebugInfo {
    /// No start line, no parameter names and no locals.
    fn default() -> (r: Self)
        ensures
            r.line_start == 0,
            r.parameter_names@.len() == 0,
            r.register_names@ == Map::<u32, String>::empty(),
            r.register_types@ == Map::<u32, String>::empty(),
            r.register_locals@ == Map::<u32, Vec<DebugLocal>>::empty(),
    {
        DebugInfo {
            line_start: 0,
            parameter_names: Vec::new(),
            register_names: HashMap::new(),
            register_types: HashMap::new(),
            register_locals: HashMap::new(),
        }
    }
}

/// A local-variable directive of the debug state machine, with raw pool indices
/// (`*_p1` are uleb128p1 values: -1 means absent).
#[derive(Clone, Copy, Debug, PartialEq, Eq)]
pub enum DebugOp {
    StartLocal { reg: u32, name_p1: i32, type_p1: i32 },
    EndLocal { reg: u32 },
    RestartLocal { reg: u32 },
}

/// A local-variable directive with its name and type resolved to strings.
pub enum LocalEvent {
    Start(u32, Option<String>, Option<String>),
    End(u32),
    Restart(u32),
}

/// One opcode of the debug byte program at `off` (not `DBG_END_SEQUENCE`): the
/// local-variable directive it carries, if any, and the position after its operands.
pub open spec fn spec_dbg_step(data: Seq<u8>, off: int) -> Option<(Option<DebugOp>, int)> {
    let op = data[off];
    let p = off + 1;
    if op == DBG_ADVANCE_PC {
        match spec_read_uleb128(data, p) {
            Some((_, n)) => Some((None, p + n)),
            None => None,
        }
    } else if op == DBG_ADVANCE_LINE {
        match spec_read_sleb128(data, p) {
            Some((_, n)) => Some((None, p + n)),
            None => None,
        }
    } else if op == DBG_START_LOCAL || op == DBG_START_LOCAL_EXTENDED {
        match spec_read_uleb128(data, p) {
            Some((reg, n1)) => match spec_read_uleb128p1(data, p + n1) {
                Some((name_p1, n2)) => match spec_read_uleb128p1(data, p + n1 + n2) {
                    Some((type_p1, n3)) => {
                        let q = p + n1 + n2 + n3;
                        let start = DebugOp::StartLocal { reg, name_p1, type_p1 };
                        if op == DBG_START_LOCAL_EXTENDED {
                            match spec_read_uleb128p1(data, q) {
                                Some((_, n4)) => Some((Some(start), q + n4)),
                                None => None,
                            }
                        } else {
                            Some((Some(start), q))
                        }
                    },
                    None => None,
                },
                None => None,
            },
            None => None,
        }
    } else if op == DBG_END_LOCAL || op == DBG_RESTART_LOCAL {
        match spec_read_uleb128(data, p) {
            Some((reg, n)) => Some(
                (
                    Some(
                        if op == DBG_END_LOCAL {
                            DebugOp::EndLocal { reg }
                        } else {
                            DebugOp::RestartLocal { reg }
                        },
                    ),
                    p + n,
                ),
            ),
            None => None,
        }
    } else if op == DBG_SET_FILE {
        match spec_read_uleb128p1(data, p) {
            Some((_, n)) => Some((None, p + n)),
            None => None,
        }
    } else {
        // prologue/epilogue markers and special opcodes carry no operands
        Some((None, p))
    }
}

/// Local-variable directives of the debug byte program starting at `off`, up to
/// `DBG_END_SEQUENCE` or the end of `data`; `None` when an operand cannot be read.
pub open spec fn spec_dbg_ops(data: Seq<u8>, off: int) -> Option<Seq<DebugOp>>
    decreases data.len() - off,
{
    if off < 0 || off >= data.len() || data[off] == DBG_END_SEQUENCE {
        Some(Seq::empty())
    } else {
        match spec_dbg_step(data, off) {
            Some((op, next)) => if next <= off || next > data.len() {
                None
            } else {
                match spec_dbg_ops(data, next) {
                    Some(rest) => Some(
                        match op {
                            Some(o) => seq![o] + rest,
                            None => rest,
                        },
                    ),
                    None => None,
                }
            },
            None => None,
        }
    }
}

proof fn lemma_dbg_step_shift(p: Seq<u8>, r: Seq<u8>, i: int)
    requires
        0 <= i < r.len(),
    ensures
        spec_dbg_step(p + r, p.len() + i) == match spec_dbg_step(r, i) {
            Some((o, n)) => Some((o, n + p.len())),
            None => None,
        },
{
    lemma_reads_shift(p, r);
    assert((p + r)[p.len() + i] == r[i]);
}

proof fn lemma_dbg_ops_shift(p: Seq<u8>, r: Seq<u8>, i: int)
    requires
        0 <= i,
    ensures
        spec_dbg_ops(p + r, p.len() + i) == spec_dbg_ops(r, i),
    decreases r.len() - i,
{
    if i < r.len() {
        assert((p + r)[p.len() + i] == r[i]);
        if r[i] != DBG_END_SEQUENCE {
            lemma_dbg_step_shift(p, r, i);
            match spec_dbg_step(r, i) {
                Some((o, n)) => {
                    if i < n <= r.len() {
                        lemma_dbg_ops_shift(p, r, n);
                    }
                },
                None => {},
            }
        }
    }
}

/// The directives of the program `head + rest`, where `head` is one start-local directive
/// that decodes to `op` and ends exactly where `rest` begins.
proof fn lemma_dbg_ops_after_start(head: Seq<u8>, rest: Seq<u8>, op: DebugOp)
    requires
        head.len() >= 1,
        head[0] != DBG_END_SEQUENCE,
        spec_dbg_step(head + rest, 0) == Some((Some(op), head.len() as int)),
    ensures
        spec_dbg_ops(head + rest, 0) == match spec_dbg_ops(rest, 0) {
            Some(ops) => Some(seq![op] + ops),
            None => None,
        },
{
    assert((head + rest)[0] == head[0]);
    lemma_dbg_ops_shift(head, rest, 0);
}

/// The local `reg`, `name`, `typ` start directive with raw (stored) name and type values.
spec fn start_of(reg: u32, name: u32, typ: u32) -> DebugOp {
    DebugOp::StartLocal { reg, name_p1: wrap_i32(name - 1) as i32, type_p1: wrap_i32(typ - 1) as i32 }
}

#[verifier::spinoff_prover]
proof fn lemma_plain_start_step(reg: u32, name: u32, typ: u32, rest: Seq<u8>)
    ensures
        spec_dbg_step(
            seq![DBG_START_LOCAL] + uleb_encode(reg as nat) + uleb_encode(name as nat) + uleb_encode(typ as nat) + rest,
            0,
        ) == Some(
            (
                Some(start_of(reg, name, typ)),
                (seq![DBG_START_LOCAL] + uleb_encode(reg as nat) + uleb_encode(name as nat) + uleb_encode(
                    typ as nat,
                )).len() as int,
            ),
        ),
{
    let er = uleb_encode(reg as nat);
    let en = uleb_encode(name as nat);
    let et = uleb_encode(typ as nat);
    let b = seq![DBG_START_LOCAL];
    let d = b + er + en + et + rest;
    assert(d =~= b + er + (en + et + rest));
    lemma_uleb_read_at(b, reg, en + et + rest);
    assert(d =~= (b + er) + en + (et + rest));
    lemma_uleb_read_at(b + er, name, et + rest);
    assert(d =~= (b + er + en) + et + rest);
    lemma_uleb_read_at(b + er + en, typ, rest);
    assert(d[0] == DBG_START_LOCAL);
    let n1 = er.len() as int;
    let n2 = en.len() as int;
    let n3 = et.len() as int;
    assert(spec_read_uleb128(d, 1) == Some((reg, n1 as usize)));
    assert(spec_read_uleb128p1(d, 1 + n1) == Some((wrap_i32(name - 1) as i32, n2 as usize)));
    assert(spec_read_uleb128p1(d, 1 + n1 + n2) == Some((wrap_i32(typ - 1) as i32, n3 as usize)));
    assert((b + er + en + et).len() == 1 + n1 + n2 + n3);
}

#[verifier::spinoff_prover]
proof fn lemma_extended_start_step(reg: u32, name: u32, typ: u32, sig: u32, rest: Seq<u8>)
    ensures
        spec_dbg_step(
            seq![DBG_START_LOCAL_EXTENDED] + uleb_encode(reg as nat) + uleb_encode(name as nat) + uleb_encode(
                typ as nat,
            ) + uleb_encode(sig as nat) + rest,
            0,
        ) == Some(
            (
                Some(start_of(reg, name, typ)),
                (seq![DBG_START_LOCAL_EXTENDED] + uleb_encode(reg as nat) + uleb_encode(name as nat) + uleb_encode(
                    typ as nat,
                ) + uleb_encode(sig as nat)).len() as int,
            ),
        ),
{
    let er = uleb_encode(reg as nat);
    let en = uleb_encode(name as nat);
    let et = uleb_encode(typ as nat);
    let es = uleb_encode(sig as nat);
    let b = seq![DBG_START_LOCAL_EXTENDED];
    let d = b + er + en + et + es + rest;
    assert(d =~= b + er + (en + et + es + rest));
    lemma_uleb_read_at(b, reg, en + et + es + rest);
    assert(d =~= (b + er) + en + (et + es + rest));
    lemma_uleb_read_at(b + er, name, et + es + rest);
    assert(d =~= (b + er + en) + et + (es + rest));
    lemma_uleb_read_at(b + er + en, typ, es + rest);
    assert(d =~= (b + er + en + et) + es + rest);
    lemma_uleb_read_at(b + er + en + et, sig, rest);
    assert(d[0] == DBG_START_LOCAL_EXTENDED);
    let n1 = er.len() as int;
    let n2 = en.len() as int;
    let n3 = et.len() as int;
    let n4 = es.len() as int;
    assert(spec_read_uleb128(d, 1) == Some((reg, n1 as usize)));
    assert(spec_read_uleb128p1(d, 1 + n1) == Some((wrap_i32(name - 1) as i32, n2 as usize)));
    assert(spec_read_uleb128p1(d, 1 + n1 + n2) == Some((wrap_i32(typ - 1) as i32, n3 as usize)));
    assert(spec_read_uleb128p1(d, 1 + n1 + n2 + n3) == Some((wrap_i32(sig - 1) as i32, n4 as usize)));
    assert((b + er + en + et + es).len() == 1 + n1 + n2 + n3 + n4);
}

/// `DBG_START_LOCAL_EXTENDED` consumes its signature operand: a program that starts a
/// local with it decodes exactly like the same program with a plain `DBG_START_LOCAL`
/// and no signature, to that local (register `reg`, name and type indices one below the
/// stored values) followed by the directives of what comes after.
pub proof fn extended_start_local_skips_its_signature(reg: u32, name: u32, typ: u32, sig: u32, rest: Seq<u8>)
    ensures
        spec_dbg_ops(
            seq![DBG_START_LOCAL_EXTENDED] + uleb_encode(reg as nat) + uleb_encode(name as nat) + uleb_encode(
                typ as nat,
            ) + uleb_encode(sig as nat) + rest,
            0,
        ) == spec_dbg_ops(
            seq![DBG_START_LOCAL] + uleb_encode(reg as nat) + uleb_encode(name as nat) + uleb_encode(typ as nat)
                + rest,
            0,
        ),
        spec_dbg_ops(
            seq![DBG_START_LOCAL] + uleb_encode(reg as nat) + uleb_encode(name as nat) + uleb_encode(typ as nat)
                + rest,
            0,
        ) == match spec_dbg_ops(rest, 0) {
            Some(ops) => Some(
                seq![DebugOp::StartLocal { reg, name_p1: wrap_i32(name - 1) as i32, type_p1: wrap_i32(typ - 1) as i32 }]
                    + ops,
            ),
            None => None,
        },
{
    let er = uleb_encode(reg as nat);
    let en = uleb_encode(name as nat);
    let et = uleb_encode(typ as nat);
    let es = uleb_encode(sig as nat);
    let hp = seq![DBG_START_LOCAL] + er + en + et;
    lemma_plain_start_step(reg, name, typ, rest);
    assert(hp[0] == DBG_START_LOCAL);
    lemma_dbg_ops_after_start(hp, rest, start_of(reg, name, typ));
    let hx = seq![DBG_START_LOCAL_EXTENDED] + er + en + et + es;
    lemma_extended_start_step(reg, name, typ, sig, rest);
    assert(hx[0] == DBG_START_LOCAL_EXTENDED);
    lemma_dbg_ops_after_start(hx, rest, start_of(reg, name, typ));
}

proof fn lemma_dbg_ops_after(head: Seq<u8>, rest: Seq<u8>, o: Option<DebugOp>)
    requires
        head.len() >= 1,
        head[0] != DBG_END_SEQUENCE,
        spec_dbg_step(head + rest, 0) == Some((o, head.len() as int)),
    ensures
        spec_dbg_ops(head + rest, 0) == match spec_dbg_ops(rest, 0) {
            Some(ops) => Some(
                match o {
                    Some(d) => seq![d] + ops,
                    None => ops,
                },
            ),
            None => None,
        },
{
    assert((head + rest)[0] == head[0]);
    lemma_dbg_ops_shift(head, rest, 0);
}

#[verifier::spinoff_prover]
proof fn lemma_uleb_operand_step(op: u8, x: u32, rest: Seq<u8>)
    requires
        op == DBG_ADVANCE_PC || op == DBG_END_LOCAL || op == DBG_RESTART_LOCAL || op == DBG_SET_FILE,
    ensures
        spec_dbg_step(seq![op] + uleb_encode(x as nat) + rest, 0) == Some(
            (
                if op == DBG_END_LOCAL {
                    Some(DebugOp::EndLocal { reg: x })
                } else if op == DBG_RESTART_LOCAL {
                    Some(DebugOp::RestartLocal { reg: x })
                } else {
                    None::<DebugOp>
                },
                (seq![op] + uleb_encode(x as nat)).len() as int,
            ),
        ),
{
    lemma_uleb_read_at(seq![op], x, rest);
    assert((seq![op] + uleb_encode(x as nat) + rest)[0] == op);
}

/// Each directive other than a local start consumes exactly its operands: the program
/// it heads decodes to what it carries (nothing for position, line, file and marker
/// directives; the local's end or restart for `DBG_END_LOCAL` / `DBG_RESTART_LOCAL`)
/// followed by the directives of what comes after; `DBG_END_SEQUENCE` ends the program.
pub proof fn directives_consume_their_operands(x: u32, line: i32, op: u8, rest: Seq<u8>)
    ensures
        spec_dbg_ops(seq![DBG_END_SEQUENCE] + rest, 0) == Some(Seq::<DebugOp>::empty()),
        spec_dbg_ops(seq![DBG_ADVANCE_PC] + uleb_encode(x as nat) + rest, 0) == spec_dbg_ops(rest, 0),
        spec_dbg_ops(seq![DBG_ADVANCE_LINE] + crate::leb128::sleb_encode(line as int) + rest, 0) == spec_dbg_ops(
            rest,
            0,
        ),
        spec_dbg_ops(seq![DBG_SET_FILE] + uleb_encode(x as nat) + rest, 0) == spec_dbg_ops(rest, 0),
        spec_dbg_ops(seq![DBG_END_LOCAL] + uleb_encode(x as nat) + rest, 0) == match spec_dbg_ops(rest, 0) {
            Some(ops) => Some(seq![DebugOp::EndLocal { reg: x }] + ops),
            None => None,
        },
        spec_dbg_ops(seq![DBG_RESTART_LOCAL] + uleb_encode(x as nat) + rest, 0) == match spec_dbg_ops(rest, 0) {
            Some(ops) => Some(seq![DebugOp::RestartLocal { reg: x }] + ops),
            None => None,
        },
        op == DBG_SET_PROLOGUE_END || op == DBG_SET_EPILOGUE_BEGIN || op >= 0x0a ==> spec_dbg_ops(
            seq![op] + rest,
            0,
        ) == spec_dbg_ops(rest, 0),
{
    assert((seq![DBG_END_SEQUENCE] + rest)[0] == DBG_END_SEQUENCE);
    lemma_uleb_operand_step(DBG_ADVANCE_PC, x, rest);
    lemma_dbg_ops_after(seq![DBG_ADVANCE_PC] + uleb_encode(x as nat), rest, None);
    lemma_uleb_operand_step(DBG_SET_FILE, x, rest);
    lemma_dbg_ops_after(seq![DBG_SET_FILE] + uleb_encode(x as nat), rest, None);
    lemma_uleb_operand_step(DBG_END_LOCAL, x, rest);
    lemma_dbg_ops_after(seq![DBG_END_LOCAL] + uleb_encode(x as nat), rest, Some(DebugOp::EndLocal { reg: x }));
    lemma_uleb_operand_step(DBG_RESTART_LOCAL, x, rest);
    lemma_dbg_ops_after(
        seq![DBG_RESTART_LOCAL] + uleb_encode(x as nat),
        rest,
        Some(DebugOp::RestartLocal { reg: x }),
    );
    let el = crate::leb128::sleb_encode(line as int);
    let d = seq![DBG_ADVANCE_LINE] + el + rest;
    assert(d =~= seq![DBG_ADVANCE_LINE] + (el + rest));
    crate::leb128::lemma_sleb_read_at(line, rest);
    lemma_reads_shift(seq![DBG_ADVANCE_LINE], el + rest);
    assert(spec_read_sleb128(d, 1) == spec_read_sleb128(el + rest, 0));
    assert(d[0] == DBG_ADVANCE_LINE);
    lemma_dbg_ops_after(seq![DBG_ADVANCE_LINE] + el, rest, None);
    if op == DBG_SET_PROLOGUE_END || op == DBG_SET_EPILOGUE_BEGIN || op >= 0x0a {
        assert((seq![op] + rest)[0] == op);
        lemma_dbg_ops_after(seq![op], rest, None);
    }
}

/// `count` uleb128p1 parameter-name indices starting at `pos`, and the position after them.
pub open spec fn spec_dbg_params(data: Seq<u8>, pos: int, count: nat) -> Option<(Seq<i32>, int)>
    decreases count,
{
    if count == 0 {
        Some((Seq::empty(), pos))
    } else {
        match spec_read_uleb128p1(data, pos) {
            Some((v, n)) => match spec_dbg_params(data, pos + n, (count - 1) as nat) {
                Some((rest, end)) => Some((seq![v] + rest, end)),
                None => None,
            },
            None => None,
        }
    }
}

/// The decoded `debug_info_item` at `off`: line_start, parameter name indices, and the
/// local-variable directives.
pub open spec fn spec_debug_item(data: Seq<u8>, off: int) -> Option<(u32, Seq<i32>, Seq<DebugOp>)> {
    if off >= data.len() {
        None
    } else {
        match spec_read_uleb128(data, off) {
            Some((line_start, n1)) => match spec_read_uleb128(data, off + n1) {
                Some((psize, n2)) => match spec_dbg_params(data, off + n1 + n2, psize as nat) {
                    Some((params, p)) => match spec_dbg_ops(data, p) {
                        Some(ops) => Some((line_start, params, ops)),
                        None => None,
                    },
                    None => None,
                },
                None => None,
            },
            None => None,
        }
    }
}

/// `Result::ok`.
pub open spec fn ok_of(r: Result<String>) -> Option<String> {
    match r {
        Ok(s) => Some(s),
        Err(_) => None,
    }
}

/// Whether `name` is what the resolver gives for the uleb128p1 index `p1`:
/// nothing for -1, else the `Ok` value of one of the resolver's possible answers.
pub open spec fn resolved_by<F: Fn(u32) -> Result<String>>(f: F, p1: i32, name: Option<String>) -> bool {
    if p1 < 0 {
        name is None
    } else {
        exists|r: Result<String>| call_ensures(f, (p1 as u32,), r) && name == ok_of(r)
    }
}

/// Whether `ev` is `op` with its indices resolved through `get_string` / `get_type`.
pub open spec fn event_of<F: Fn(u32) -> Result<String>, G: Fn(u32) -> Result<String>>(
    get_string: F,
    get_type: Option<G>,
    op: DebugOp,
    ev: LocalEvent,
) -> bool {
    match op {
        DebugOp::StartLocal { reg, name_p1, type_p1 } => match ev {
            LocalEvent::Start(r, n, t) => r == reg && resolved_by(get_string, name_p1, n) && match get_type {
                Some(g) => resolved_by(g, type_p1, t),
                None => t is None,
            },
            _ => false,
        },
        DebugOp::EndLocal { reg } => ev == LocalEvent::End(reg),
        DebugOp::RestartLocal { reg } => ev == LocalEvent::Restart(reg),
    }
}

/// Register names, register types, locals per register, and the names/types remembered
/// for a later restart.
pub type DebugState = (
    Map<u32, String>,
    Map<u32, String>,
    Map<u32, Seq<DebugLocal>>,
    Map<u32, String>,
    Map<u32, String>,
);

pub open spec fn non_empty(s: Option<String>) -> bool {
    s is Some && s->0@.len() > 0
}

/// Record a local on `reg`: non-empty names and types become the register's current ones
/// (and are remembered for restart); a non-empty name also adds a `DebugLocal`.
pub open spec fn record_local(st: DebugState, reg: u32, name: Option<String>, ty: Option<String>) -> DebugState {
    let named = non_empty(name);
    let typed = non_empty(ty);
    let names = if named { st.0.insert(reg, name->0) } else { st.0 };
    let last_local = if named { st.3.insert(reg, name->0) } else { st.3 };
    let types = if typed { st.1.insert(reg, ty->0) } else { st.1 };
    let last_type = if typed { st.4.insert(reg, ty->0) } else { st.4 };
    let prev = if st.2.contains_key(reg) { st.2[reg] } else { Seq::empty() };
    let local = DebugLocal { name: name->0, type_desc: if typed { ty } else { None } };
    let locals = if named { st.2.insert(reg, prev.push(local)) } else { st.2 };
    (names, types, locals, last_local, last_type)
}

/// Effect of one directive.
pub open spec fn debug_step(st: DebugState, ev: LocalEvent) -> DebugState {
    match ev {
        LocalEvent::Start(reg, name, ty) => record_local(st, reg, name, ty),
        LocalEvent::End(reg) => (
            st.0,
            st.1,
            st.2,
            if st.0.contains_key(reg) { st.3.insert(reg, st.0[reg]) } else { st.3 },
            if st.1.contains_key(reg) { st.4.insert(reg, st.1[reg]) } else { st.4 },
        ),
        LocalEvent::Restart(reg) => {
            let name = if st.3.contains_key(reg) { Some(st.3[reg]) } else { None };
            let ty = if st.4.contains_key(reg) { Some(st.4[reg]) } else { None };
            if name is Some || ty is Some {
                record_local(st, reg, name, ty)
            } else {
                st
            }
        },
    }
}

/// State after running all directives of `evs` in order from the empty state.
pub open spec fn debug_run(evs: Seq<LocalEvent>) -> DebugState
    decreases evs.len(),
{
    if evs.len() == 0 {
        (Map::empty(), Map::empty(), Map::empty(), Map::empty(), Map::empty())
    } else {
        debug_step(debug_run(evs.drop_last()), evs.last())
    }
}

/// Whether the hash map of locals holds exactly the sequences of `m`.
pub open spec fn locals_match(h: Map<u32, Vec<DebugLocal>>, m: Map<u32, Seq<DebugLocal>>) -> bool {
    h.dom() == m.dom() && forall|k: u32| #[trigger] h.contains_key(k) ==> h[k]@ == m[k]
}

/// What a successful parse of the `debug_info_item` at `off` gives, with names resolved by
/// `get_string` and local types by `get_type` (when given).
pub open spec fn debug_info_matches<F: Fn(u32) -> Result<String>, G: Fn(u32) -> Result<String>>(
    data: Seq<u8>,
    off: int,
    get_string: F,
    get_type: Option<G>,
    info: DebugInfo,
) -> bool {
    &&& spec_debug_item(data, off) is Some
    &&& {
        let (line_start, params, ops) = spec_debug_item(data, off)->0;
        &&& info.line_start == line_start
        &&& info.parameter_names@.len() == params.len()
        &&& forall|i: int|
            0 <= i < params.len() ==> resolved_by(get_string, params[i], #[trigger] info.parameter_names@[i])
        &&& exists|evs: Seq<LocalEvent>|
            {
                &&& evs.len() == ops.len()
                &&& forall|k: int| 0 <= k < ops.len() ==> event_of(get_string, get_type, ops[k], #[trigger] evs[k])
                &&& info.register_names@ == debug_run(evs).0
                &&& info.register_types@ == debug_run(evs).1
                &&& locals_match(info.register_locals@, debug_run(evs).2)
            }
    }
}

impl DebugInfo {
    /// Name for register `reg`, if known.
    pub fn name_for_reg(&self, reg: u32) -> (r: Option<&str>)
        ensures
            match r {
                Some(s) => self.register_names@.contains_key(reg) && s@ == self.register_names@[reg]@,
                None => !self.register_names@.contains_key(reg),
            },
    {
        match self.register_names.get(&reg) {
            Some(s) => Some(s.as_str()),
            None => None,
        }
    }

    /// Type descriptor for register `reg`, if known.
    pub fn type_for_reg(&self, reg: u32) -> (r: Option<&str>)
        ensures
            match r {
                Some(s) => self.register_types@.contains_key(reg) && s@ == self.register_types@[reg]@,
                None => !self.register_types@.contains_key(reg),
            },
    {
        match self.register_types.get(&reg) {
            Some(s) => Some(s.as_str()),
            None => None,
        }
    }

    /// Every named local that lived on `reg`, in encounter order.
    pub fn locals_for_reg(&self, reg: u32) -> (r: &[DebugLocal])
        ensures
            r@ == if self.register_locals@.contains_key(reg) {
                self.register_locals@[reg]@
            } else {
                Seq::empty()
            },
    {
        match self.register_locals.get(&reg) {
            Some(v) => v.as_slice(),
            None => &[],
        }
    }
}

fn non_empty_string(s: &Option<String>) -> (r: bool)
    ensures
        r == non_empty(*s),
{
    match s {
        Some(x) => !x.as_str().is_empty(),
        None => false,
    }
}

fn record_local_exec(
    reg: u32,
    name: Option<String>,
    ty: Option<String>,
    names: &mut HashMap<u32, String>,
    types: &mut HashMap<u32, String>,
    locals: &mut HashMap<u32, Vec<DebugLocal>>,
    last_local: &mut HashMap<u32, String>,
    last_type: &mut HashMap<u32, String>,
    Ghost(st): Ghost<DebugState>,
)
    requires
        old(names)@ == st.0,
        old(types)@ == st.1,
        locals_match(old(locals)@, st.2),
        old(last_local)@ == st.3,
        old(last_type)@ == st.4,
    ensures
        final(names)@ == record_local(st, reg, name, ty).0,
        final(types)@ == record_local(st, reg, name, ty).1,
        locals_match(final(locals)@, record_local(st, reg, name, ty).2),
        final(last_local)@ == record_local(st, reg, name, ty).3,
        final(last_type)@ == record_local(st, reg, name, ty).4,
{
    let named = non_empty_string(&name);
    let typed = non_empty_string(&ty);
    if named {
        let n = name.clone().unwrap();
        last_local.insert(reg, n.clone());
        names.insert(reg, n);
    }
    if typed {
        let t = ty.clone().unwrap();
        last_type.insert(reg, t.clone());
        types.insert(reg, t);
    }
    if named {
        let n = name.unwrap();
        let type_desc = if typed {
            ty
        } else {
            None
        };
        let mut v = match locals.remove(&reg) {
            Some(v) => v,
            None => Vec::new(),
        };
        let ghost prev = v@;
        v.push(DebugLocal { name: n, type_desc });
        let ghost target = record_local(st, reg, name, ty).2;
        locals.insert(reg, v);
        assert(locals@.dom() =~= target.dom());
        assert forall|k: u32| #[trigger] locals@.contains_key(k) implies locals@[k]@ == target[k] by {
            if k == reg {
                assert(v@ =~= target[k]);
            }
        }
    }
}

/// Parse `debug_info_item` at `debug_info_off` within `data`.
///
/// `get_string` resolves string_id indices to UTF-8 names.
/// Callers should skip invoking this when `debug_info_off == 0` (no debug item).
pub fn parse_debug_info<F: Fn(u32) -> Result<String>>(
    data: &[u8],
    debug_info_off: u32,
    get_string: &F,
) -> (r: Result<DebugInfo>)
    requires
        forall|i: u32| call_requires(*get_string, (i,)),
    ensures
        match r {
            Ok(info) => debug_info_matches(data@, debug_info_off as int, *get_string, None::<F>, info),
            Err(e) => e is Truncated && spec_debug_item(data@, debug_info_off as int) is None,
        },
{
    parse_debug_info_with_types(data, debug_info_off, get_string, None::<&F>)
}

/// Like [`parse_debug_info`], but also resolves local type descriptors when `get_type` is set.
pub fn parse_debug_info_with_types<F: Fn(u32) -> Result<String>, G: Fn(u32) -> Result<String>>(
    data: &[u8],
    debug_info_off: u32,
    get_string: &F,
    get_type: Option<&G>,
) -> (r: Result<DebugInfo>)
    requires
        forall|i: u32| call_requires(*get_string, (i,)),
        get_type matches Some(g) ==> forall|i: u32| call_requires(*g, (i,)),
    ensures
        match r {
            Ok(info) => debug_info_matches(
                data@,
                debug_info_off as int,
                *get_string,
                match get_type {
                    Some(g) => Some(*g),
                    None => None,
                },
                info,
            ),
            Err(e) => e is Truncated && spec_debug_item(data@, debug_info_off as int) is None,
        },
{
    let mut off = debug_info_off as usize;
    if off >= data.len() {
        return Err(truncated("debug_info_off"));
    }
    proof {
        lemma_read_leb_consumed(data@, off as int);
    }
    let (line_start, n) = match read_uleb128(data, off) {
        Some(p) => p,
        None => return Err(truncated("debug line_start")),
    };
    let ghost na = n;
    off += n;
    proof {
        lemma_read_leb_consumed(data@, off as int);
    }
    let (parameters_size, n) = match read_uleb128(data, off) {
        Some(p) => p,
        None => return Err(truncated("debug parameters_size")),
    };
    let ghost nb = n;
    off += n;
    let ghost params_start = off as int;
    let ghost all_params = spec_dbg_params(data@, params_start, parameters_size as nat);
    let mut params_p1: Vec<i32> = Vec::new();
    let mut k: u32 = 0;
    while k < parameters_size
        invariant
            k <= parameters_size,
            off <= data@.len() <= usize::MAX,
            all_params == spec_dbg_params(data@, params_start, parameters_size as nat),
            debug_info_off < data@.len(),
            spec_read_uleb128(data@, debug_info_off as int) == Some((line_start, na)),
            spec_read_uleb128(data@, debug_info_off + na) == Some((parameters_size, nb)),
            params_start == debug_info_off + na + nb,
            all_params == match spec_dbg_params(data@, off as int, (parameters_size - k) as nat) {
                Some((rest, e)) => Some((params_p1@ + rest, e)),
                None => None,
            },
        decreases parameters_size - k,
    {
        proof {
            lemma_read_leb_consumed(data@, off as int);
        }
        let (p1, n) = match read_uleb128p1(data, off) {
            Some(p) => p,
            None => {
                assert(all_params is None);
                return Err(truncated("debug param name"));
            },
        };
        let ghost before = params_p1@;
        params_p1.push(p1);
        off += n;
        k += 1;
        proof {
            match spec_dbg_params(data@, off as int, (parameters_size - k) as nat) {
                Some((rest, e)) => {
                    assert(before + (seq![p1] + rest) =~= params_p1@ + rest);
                },
                None => {},
            }
        }
    }
    assert(params_p1@ + Seq::<i32>::empty() =~= params_p1@);
    let ghost params_end = off as int;
    let ops = match decode_ops(data, off) {
        Some(o) => o,
        None => return Err(truncated("debug opcode operand")),
    };
    // parameter names
    let mut parameter_names: Vec<Option<String>> = Vec::new();
    let mut i: usize = 0;
    while i < params_p1.len()
        invariant
            i <= params_p1@.len(),
            parameter_names@.len() == i,
            forall|i: u32| call_requires(*get_string, (i,)),
            forall|j: int| 0 <= j < i ==> resolved_by(*get_string, params_p1@[j], #[trigger] parameter_names@[j]),
        decreases params_p1@.len() - i,
    {
        let p1 = params_p1[i];
        let res: Option<Result<String>> = if p1 < 0 {
            None
        } else {
            Some(get_string(p1 as u32))
        };
        let ghost res_g = res;
        let name = match res {
            Some(Ok(s)) => Some(s),
            _ => None,
        };
        proof {
            if p1 >= 0 {
                assert(call_ensures(*get_string, (p1 as u32,), res_g->0));
                assert(name == ok_of(res_g->0));
            }
            assert(resolved_by(*get_string, p1, name));
        }
        let ghost before = parameter_names@;
        parameter_names.push(name);
        proof {
            assert forall|j: int| 0 <= j < i + 1 implies resolved_by(
                *get_string,
                params_p1@[j],
                #[trigger] parameter_names@[j],
            ) by {
                if j < i {
                    assert(parameter_names@[j] == before[j]);
                }
            }
        }
        i += 1;
    }
    // local variables
    let mut register_names: HashMap<u32, String> = HashMap::new();
    let mut register_types: HashMap<u32, String> = HashMap::new();
    let mut register_locals: HashMap<u32, Vec<DebugLocal>> = HashMap::new();
    let mut last_local: HashMap<u32, String> = HashMap::new();
    let mut last_type: HashMap<u32, String> = HashMap::new();
    let ghost get_type_spec: Option<G> = match get_type {
        Some(g) => Some(*g),
        None => None,
    };
    let ghost mut evs: Seq<LocalEvent> = Seq::empty();
    assert(locals_match(register_locals@, debug_run(evs).2));
    let mut j: usize = 0;
    while j < ops.len()
        invariant
            j <= ops@.len(),
            evs.len() == j,
            forall|i: u32| call_requires(*get_string, (i,)),
            get_type matches Some(g) ==> forall|i: u32| call_requires(*g, (i,)),
            get_type_spec == match get_type {
                Some(g) => Some(*g),
                None => None::<G>,
            },
            forall|k: int| 0 <= k < j ==> event_of(*get_string, get_type_spec, ops@[k], #[trigger] evs[k]),
            register_names@ == debug_run(evs).0,
            register_types@ == debug_run(evs).1,
            locals_match(register_locals@, debug_run(evs).2),
            last_local@ == debug_run(evs).3,
            last_type@ == debug_run(evs).4,
        decreases ops@.len() - j,
    {
        let ghost st = debug_run(evs);
        let ghost ev: LocalEvent;
        match ops[j] {
            DebugOp::StartLocal { reg, name_p1, type_p1 } => {
                let name_res: Option<Result<String>> = if name_p1 >= 0 {
                    Some(get_string(name_p1 as u32))
                } else {
                    None
                };
                let ghost name_res_g = name_res;
                let name = match name_res {
                    Some(Ok(s)) => Some(s),
                    _ => None,
                };
                let ty_res: Option<Result<String>> = if type_p1 >= 0 {
                    match get_type {
                        Some(gt) => Some(gt(type_p1 as u32)),
                        None => None,
                    }
                } else {
                    None
                };
                let ghost ty_res_g = ty_res;
                let ty = match ty_res {
                    Some(Ok(s)) => Some(s),
                    _ => None,
                };
                proof {
                    if name_p1 >= 0 {
                        assert(call_ensures(*get_string, (name_p1 as u32,), name_res_g->0));
                        assert(name == ok_of(name_res_g->0));
                    }
                    assert(resolved_by(*get_string, name_p1, name));
                    match get_type {
                        Some(gt) => {
                            if type_p1 >= 0 {
                                assert(call_ensures(*gt, (type_p1 as u32,), ty_res_g->0));
                                assert(ty == ok_of(ty_res_g->0));
                            }
                            assert(resolved_by(*gt, type_p1, ty));
                        },
                        None => {},
                    }
                }
                proof {
                    ev = LocalEvent::Start(reg, name, ty);
                }
                record_local_exec(
                    reg,
                    name,
                    ty,
                    &mut register_names,
                    &mut register_types,
                    &mut register_locals,
                    &mut last_local,
                    &mut last_type,
                    Ghost(st),
                );
            },
            DebugOp::EndLocal { reg } => {
                proof {
                    ev = LocalEvent::End(reg);
                }
                match register_names.get(&reg) {
                    Some(name) => {
                        last_local.insert(reg, name.clone());
                    },
                    None => {},
                }
                match register_types.get(&reg) {
                    Some(ty) => {
                        last_type.insert(reg, ty.clone());
                    },
                    None => {},
                }
            },
            DebugOp::RestartLocal { reg } => {
                proof {
                    ev = LocalEvent::Restart(reg);
                }
                let name = match last_local.get(&reg) {
                    Some(s) => Some(s.clone()),
                    None => None,
                };
                let ty = match last_type.get(&reg) {
                    Some(s) => Some(s.clone()),
                    None => None,
                };
                if name.is_some() || ty.is_some() {
                    record_local_exec(
                        reg,
                        name,
                        ty,
                        &mut register_names,
                        &mut register_types,
                        &mut register_locals,
                        &mut last_local,
                        &mut last_type,
                        Ghost(st),
                    );
                }
            },
        }
        proof {
            let old_evs = evs;
            evs = evs.push(ev);
            assert(evs.drop_last() =~= old_evs);
            assert forall|k: int| 0 <= k < j + 1 implies event_of(
                *get_string,
                get_type_spec,
                ops@[k],
                #[trigger] evs[k],
            ) by {
                if k < j {
                    assert(evs[k] == old_evs[k]);
                }
            }
        }
        j += 1;
    }
    let info = DebugInfo {
        line_start,
        parameter_names,
        register_names,
        register_types,
        register_locals,
    };
    assert(evs.len() == ops@.len());
    Ok(info)
}

/// Decode one opcode (not `DBG_END_SEQUENCE`) of the debug byte program at `off`.
fn decode_step(data: &[u8], off: usize) -> (r: Option<(Option<DebugOp>, usize)>)
    requires
        off < data@.len(),
        data@[off as int] != DBG_END_SEQUENCE,
    ensures
        match r {
            Some((o, nx)) => off < nx <= data@.len() && spec_dbg_step(data@, off as int) == Some(
                (o, nx as int),
            ),
            None => spec_dbg_step(data@, off as int) is None,
        },
{
    let opcode = data[off];
    let p = off + 1;
    proof {
        lemma_read_leb_consumed(data@, p as int);
    }
    if opcode == DBG_ADVANCE_PC {
        match read_uleb128(data, p) {
            Some((_, n)) => Some((None, p + n)),
            None => None,
        }
    } else if opcode == DBG_ADVANCE_LINE {
        match read_sleb128(data, p) {
            Some((_, n)) => Some((None, p + n)),
            None => None,
        }
    } else if opcode == DBG_START_LOCAL || opcode == DBG_START_LOCAL_EXTENDED {
        let (reg, n1) = match read_uleb128(data, p) {
            Some(x) => x,
            None => return None,
        };
        proof {
            lemma_read_leb_consumed(data@, (p + n1) as int);
        }
        let (name_p1, n2) = match read_uleb128p1(data, p + n1) {
            Some(x) => x,
            None => return None,
        };
        proof {
            lemma_read_leb_consumed(data@, (p + n1 + n2) as int);
        }
        let (type_p1, n3) = match read_uleb128p1(data, p + n1 + n2) {
            Some(x) => x,
            None => return None,
        };
        let q = p + n1 + n2 + n3;
        let op = DebugOp::StartLocal { reg, name_p1, type_p1 };
        if opcode == DBG_START_LOCAL_EXTENDED {
            proof {
                lemma_read_leb_consumed(data@, q as int);
            }
            match read_uleb128p1(data, q) {
                Some((_, n4)) => Some((Some(op), q + n4)),
                None => None,
            }
        } else {
            Some((Some(op), q))
        }
    } else if opcode == DBG_END_LOCAL || opcode == DBG_RESTART_LOCAL {
        let (reg, n) = match read_uleb128(data, p) {
            Some(x) => x,
            None => return None,
        };
        let op = if opcode == DBG_END_LOCAL {
            DebugOp::EndLocal { reg }
        } else {
            DebugOp::RestartLocal { reg }
        };
        Some((Some(op), p + n))
    } else if opcode == DBG_SET_FILE {
        match read_uleb128p1(data, p) {
            Some((_, n)) => Some((None, p + n)),
            None => None,
        }
    } else {
        Some((None, p))
    }
}

/// Decode the local-variable directives of the debug byte program at `off0`.
fn decode_ops(data: &[u8], off0: usize) -> (r: Option<Vec<DebugOp>>)
    requires
        off0 <= data@.len(),
    ensures
        match r {
            Some(v) => spec_dbg_ops(data@, off0 as int) == Some(v@),
            None => spec_dbg_ops(data@, off0 as int) is None,
        },
{
    let mut ops: Vec<DebugOp> = Vec::new();
    let mut off = off0;
    let _len = data.len();
    let ghost total = spec_dbg_ops(data@, off0 as int);
    proof {
        match total {
            Some(rest) => {
                assert(ops@ + rest =~= rest);
            },
            None => {},
        }
    }
    loop
        invariant
            off <= data@.len() <= usize::MAX,
            total == spec_dbg_ops(data@, off0 as int),
            total == match spec_dbg_ops(data@, off as int) {
                Some(rest) => Some(ops@ + rest),
                None => None,
            },
        decreases data@.len() - off,
    {
        if off >= data.len() || data[off] == DBG_END_SEQUENCE {
            assert(ops@ + Seq::<DebugOp>::empty() =~= ops@);
            return Some(ops);
        }
        let (op, next) = match decode_step(data, off) {
            Some(x) => x,
            None => return None,
        };
        let ghost before = ops@;
        match op {
            Some(o) => {
                ops.push(o);
            },
            None => {},
        }
        off = next;
        proof {
            match spec_dbg_ops(data@, off as int) {
                Some(rest) => {
                    match op {
                        Some(o) => {
                            assert(before + (seq![o] + rest) =~= ops@ + rest);
                        },
                        None => {},
                    }
                },
                None => {},
            }
        }
    }
}

} // verus!
