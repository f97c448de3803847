//! Verification of a proof against a sorted list of keys, answering each
//! key with its proven value or with a proven absence.
use vstd::prelude::*;

use super::encoding::{decode_spec, decode_stream, lemma_decode_len};
use super::query::{check_root, lemma_decode_stream_step, lemma_exec_op_no_mismatch, machine_root_hash};
use super::tree::{exec_op, finish_spec, init_state, ExecState, Executor};
use super::{Decoder, Node, NodeV, Op, OpV};
use crate::bytes::{bytes_eq, compare, copy_bytes, lemma_lex_order, lex_lt, Order};
use crate::error::{Error, Fault};
use crate::hash::hash_eq;

verus! {

/// What the verifier tracks beside the stack machine: the answers so far,
/// the last node pushed, and the index of the next key to answer.
pub struct KeysCursorV {
    pub output: Seq<Option<Seq<u8>>>,
    pub last_push: Option<NodeV>,
    pub ki: int,
}

/// The state of the key verifier.
pub struct KeysState {
    pub machine: ExecState,
    pub cursor: KeysCursorV,
}

/// Answering the keys, from the current one on, that a pushed key/value
/// pair settles: every key not above the pushed key. A key equal to it
/// gets its value; a key below it is absent, which the proof shows only if
/// the node pushed before is a key/value pair or there is none.
pub open spec fn keys_kv_loop(keys: Seq<Seq<u8>>, st: KeysCursorV, key: Seq<u8>, value: Seq<u8>) -> Result<KeysCursorV, Fault>
    decreases keys.len() - st.ki,
{
    if st.ki < 0 || st.ki >= keys.len() || lex_lt(key, keys[st.ki]) {
        Ok(st)
    } else {
        let answer = if key == keys[st.ki] {
            Ok(Some(value))
        } else if st.last_push is None || st.last_push matches Some(NodeV::KV(_, _)) {
            Ok(None)
        } else {
            Err(Fault::Proof)
        };
        match answer {
            Err(f) => Err(f),
            Ok(a) => keys_kv_loop(keys, KeysCursorV { output: st.output.push(a), ki: st.ki + 1, ..st }, key, value),
        }
    }
}

/// The check the verifier makes of each pushed node.
pub open spec fn keys_visit(keys: Seq<Seq<u8>>, st: KeysCursorV, node: NodeV) -> Result<KeysCursorV, Fault> {
    let r = match node {
        NodeV::KV(k, v) => keys_kv_loop(keys, st, k, v),
        _ => Ok(st),
    };
    match r {
        Err(f) => Err(f),
        Ok(s2) => Ok(KeysCursorV { last_push: Some(node), ..s2 }),
    }
}

/// One operator of the key verifier.
pub open spec fn keys_step(keys: Seq<Seq<u8>>, st: KeysState, op: OpV) -> Result<KeysState, Fault> {
    match exec_op(st.machine, op, true) {
        Err(f) => Err(f),
        Ok(m2) => match op {
            OpV::Push(node) => match keys_visit(keys, st.cursor, node) {
                Err(f) => Err(f),
                Ok(c2) => Ok(KeysState { machine: m2, cursor: c2 }),
            },
            _ => Ok(KeysState { machine: m2, cursor: st.cursor }),
        },
    }
}

/// Running `keys_step` over a sequence of operators.
pub open spec fn keys_run(keys: Seq<Seq<u8>>, st: KeysState, ops: Seq<OpV>) -> Result<KeysState, Fault>
    decreases ops.len(),
{
    if ops.len() == 0 {
        Ok(st)
    } else {
        match keys_step(keys, st, ops[0]) {
            Err(f) => Err(f),
            Ok(s2) => keys_run(keys, s2, ops.drop_first()),
        }
    }
}

/// The state the key verifier starts from.
pub open spec fn keys_init() -> KeysState {
    KeysState { machine: init_state(), cursor: KeysCursorV { output: Seq::empty(), last_push: None, ki: 0 } }
}

/// The outcome of the key verifier given how its run ended and whether
/// decoding stopped on an error. Keys left unanswered at the end lie past
/// the last pushed node: they are absent if that node is a key/value pair.
pub open spec fn keys_outcome(
    keys: Seq<Seq<u8>>,
    run: Result<KeysState, Fault>,
    err: Option<crate::error::DecodeError>,
    expected: Seq<u8>,
) -> Result<Seq<Option<Seq<u8>>>, Fault> {
    match run {
        Err(f) => Err(f),
        Ok(st) => match err {
            Some(e) => Err(Fault::Decode(e)),
            None => match finish_spec(st.machine) {
                Err(f) => Err(f),
                Ok(_) => if st.cursor.ki < keys.len() && !(st.cursor.last_push matches Some(NodeV::KV(_, _))) {
                    Err(Fault::Proof)
                } else {
                    match check_root(st.machine, expected) {
                        Err(f) => Err(f),
                        Ok(()) => Ok(
                            st.cursor.output + Seq::new(
                                (keys.len() - st.cursor.ki) as nat,
                                |i: int| None::<Seq<u8>>,
                            ),
                        ),
                    }
                },
            },
        },
    }
}

/// The result of verifying an encoded proof against a list of keys.
pub open spec fn verify_keys_spec(bytes: Seq<u8>, keys: Seq<Seq<u8>>, expected: Seq<u8>) -> Result<Seq<Option<Seq<u8>>>, Fault> {
    keys_outcome(keys, keys_run(keys, keys_init(), decode_stream(bytes).0), decode_stream(bytes).1, expected)
}

/// The value of each key.
pub open spec fn keys_view(keys: Seq<Vec<u8>>) -> Seq<Seq<u8>> {
    keys.map_values(|k: Vec<u8>| k@)
}

/// The value of each answer.
pub open spec fn answers_view(v: Seq<Option<Vec<u8>>>) -> Seq<Option<Seq<u8>>> {
    v.map_values(|a: Option<Vec<u8>>| match a {
        Some(x) => Some(x@),
        None => None,
    })
}

/// A key proof that verifies against one root hash fails against any
/// other, on a hash mismatch whose computed hash is the one it verifies
/// against.
pub proof fn lemma_keys_wrong_hash(bytes: Seq<u8>, keys: Seq<Seq<u8>>, h: Seq<u8>, e: Seq<u8>)
    requires
        verify_keys_spec(bytes, keys, h) is Ok,
        e != h,
    ensures
        verify_keys_spec(bytes, keys, e) == Err::<Seq<Option<Seq<u8>>>, Fault>(Fault::HashMismatch),
        keys_run(keys, keys_init(), decode_stream(bytes).0) is Ok,
        machine_root_hash(keys_run(keys, keys_init(), decode_stream(bytes).0)->Ok_0.machine) == h,
{
}

proof fn lemma_keys_run_push(keys: Seq<Seq<u8>>, st: KeysState, ops: Seq<OpV>, op: OpV)
    requires
        keys_run(keys, st, ops) is Ok,
    ensures
        keys_run(keys, st, ops.push(op)) == keys_step(keys, keys_run(keys, st, ops)->Ok_0, op),
    decreases ops.len(),
{
    reveal_with_fuel(keys_run, 2);
    if ops.len() > 0 {
        let s2 = keys_step(keys, st, ops[0])->Ok_0;
        lemma_keys_run_push(keys, s2, ops.drop_first(), op);
        assert(ops.push(op).drop_first() =~= ops.drop_first().push(op));
    } else {
        assert(ops.push(op).drop_first() =~= Seq::<OpV>::empty());
    }
}

proof fn lemma_keys_run_prefix_err(keys: Seq<Seq<u8>>, st: KeysState, ops: Seq<OpV>, n: int)
    requires
        0 <= n <= ops.len(),
        keys_run(keys, st, ops.subrange(0, n)) is Err,
    ensures
        keys_run(keys, st, ops) == keys_run(keys, st, ops.subrange(0, n)),
    decreases n,
{
    if n > 0 {
        match keys_step(keys, st, ops[0]) {
            Err(_) => {},
            Ok(s2) => {
                assert(ops.subrange(0, n).drop_first() =~= ops.drop_first().subrange(0, n - 1));
                lemma_keys_run_prefix_err(keys, s2, ops.drop_first(), n - 1);
            },
        }
    }
}

proof fn lemma_keys_decode_err(bytes: Seq<u8>, keys: Seq<Seq<u8>>, expected: Seq<u8>, done: Seq<OpV>, rem: Seq<u8>)
    requires
        decode_stream(bytes).0 == done + decode_stream(rem).0,
        decode_stream(bytes).1 == decode_stream(rem).1,
        rem.len() > 0,
        decode_spec(rem) is Err,
        keys_run(keys, keys_init(), done) is Ok,
    ensures
        verify_keys_spec(bytes, keys, expected) == Err::<Seq<Option<Seq<u8>>>, Fault>(
            Fault::Decode(decode_spec(rem)->Err_0),
        ),
{
    lemma_decode_stream_step(rem);
    assert(decode_stream(bytes).0 =~= done);
}

/// Answering keys from a key/value pair never fails on a hash mismatch.
proof fn lemma_keys_kv_loop_no_mismatch(keys: Seq<Seq<u8>>, st: KeysCursorV, key: Seq<u8>, value: Seq<u8>)
    ensures
        keys_kv_loop(keys, st, key, value) matches Err(f) ==> f != Fault::HashMismatch,
    decreases keys.len() - st.ki,
{
    if 0 <= st.ki < keys.len() && !lex_lt(key, keys[st.ki]) {
        let a = if key == keys[st.ki] {
            Some(value)
        } else {
            None
        };
        lemma_keys_kv_loop_no_mismatch(keys, KeysCursorV { output: st.output.push(a), ki: st.ki + 1, ..st }, key, value);
    }
}

/// An operator of the key verifier never fails on a hash mismatch: that
/// error comes only from the final comparison.
proof fn lemma_keys_step_no_mismatch(keys: Seq<Seq<u8>>, st: KeysState, op: OpV)
    ensures
        keys_step(keys, st, op) matches Err(f) ==> f != Fault::HashMismatch,
{
    lemma_exec_op_no_mismatch(st.machine, op, true);
    if let OpV::Push(NodeV::KV(k, v)) = op {
        lemma_keys_kv_loop_no_mismatch(keys, st.cursor, k, v);
    }
}

proof fn lemma_keys_step_err(bytes: Seq<u8>, keys: Seq<Seq<u8>>, expected: Seq<u8>, done: Seq<OpV>, op: OpV, tail: Seq<OpV>)
    requires
        decode_stream(bytes).0 == done.push(op) + tail,
        keys_run(keys, keys_init(), done) is Ok,
        keys_step(keys, keys_run(keys, keys_init(), done)->Ok_0, op) is Err,
    ensures
        verify_keys_spec(bytes, keys, expected) == Err::<Seq<Option<Seq<u8>>>, Fault>(
            keys_step(keys, keys_run(keys, keys_init(), done)->Ok_0, op)->Err_0,
        ),
{
    let all = decode_stream(bytes).0;
    lemma_keys_run_push(keys, keys_init(), done, op);
    assert(all.subrange(0, done.len() + 1int) =~= done.push(op));
    lemma_keys_run_prefix_err(keys, keys_init(), all, done.len() + 1int);
}

/// The cursor the key verifier keeps while it matches pushed nodes against
/// the keys.
struct KeysCursor {
    output: Vec<Option<Vec<u8>>>,
    last_push: Option<Node>,
    ki: usize,
}

impl KeysCursor {
    spec fn view(&self) -> KeysCursorV {
        KeysCursorV {
            output: answers_view(self.output@),
            last_push: match self.last_push {
                Some(n) => Some(n@),
                None => None,
            },
            ki: self.ki as int,
        }
    }

    /// Answers the keys that a pushed key/value pair settles.
    fn kv_loop(&mut self, keys: &[Vec<u8>], key: &Vec<u8>, value: &Vec<u8>) -> (r: Result<(), Error>)
        requires
            old(self).ki <= keys@.len(),
        ensures
            final(self).ki <= keys@.len(),
            match keys_kv_loop(keys_view(keys@), old(self).view(), key@, value@) {
                Ok(s) => r is Ok && s == final(self).view(),
                Err(f) => r matches Err(e) && e.fault() == f,
            },
        decreases keys@.len() - old(self).ki,
    {
        proof {
            lemma_lex_order();
        }
        if self.ki >= keys.len() {
            return Ok(());
        }
        let k = &keys[self.ki];
        assert(k@ == keys_view(keys@)[self.ki as int]);
        if compare(key.as_slice(), k.as_slice()) == Order::Less {
            return Ok(());
        }
        let answer = if bytes_eq(key.as_slice(), k.as_slice()) {
            Some(copy_bytes(value.as_slice()))
        } else {
            let ok = match &self.last_push {
                None => true,
                Some(Node::KV(_, _)) => true,
                Some(_) => false,
            };
            if !ok {
                return Err(Error::Proof("Proof incorrectly formed".to_owned()));
            }
            None
        };
        let ghost before = self.output@;
        self.output.push(answer);
        assert(answers_view(self.output@) =~= answers_view(before).push(
            if key@ == k@ { Some(value@) } else { None },
        ));
        self.ki = self.ki + 1;
        self.kv_loop(keys, key, value)
    }

    /// Checks a pushed node against the keys.
    fn visit(&mut self, keys: &[Vec<u8>], node: &Node) -> (r: Result<(), Error>)
        requires
            old(self).ki <= keys@.len(),
        ensures
            final(self).ki <= keys@.len(),
            match keys_visit(keys_view(keys@), old(self).view(), node@) {
                Ok(s) => r is Ok && s == final(self).view(),
                Err(f) => r matches Err(e) && e.fault() == f,
            },
    {
        match node {
            Node::KV(key, value) => {
                self.kv_loop(keys, key, value)?;
            },
            _ => {},
        }
        self.last_push = Some(node.copy());
        Ok(())
    }
}

/// Runs one operator of the key verifier.
fn keys_apply(exec: &mut Executor, cursor: &mut KeysCursor, keys: &[Vec<u8>], op: Op) -> (r: Result<(), Error>)
    requires
        old(exec).inv(),
        old(exec).collapses(),
        old(exec).steps() < usize::MAX,
        old(cursor).ki <= keys@.len(),
    ensures
        final(exec).collapses(),
        final(cursor).ki <= keys@.len(),
        match keys_step(keys_view(keys@), KeysState { machine: old(exec).state(), cursor: old(cursor).view() }, op@) {
            Ok(st) => r is Ok && st == (KeysState { machine: final(exec).state(), cursor: final(cursor).view() })
                && final(exec).inv() && final(exec).steps() == old(exec).steps() + 1,
            Err(f) => r matches Err(e) && e.fault() == f,
        },
{
    let pushed = match &op {
        Op::Push(node) => Some(node.copy()),
        _ => None,
    };
    exec.apply(op)?;
    match pushed {
        Some(node) => cursor.visit(keys, &node),
        None => Ok(()),
    }
}

/// Verifies the encoded proof against the given keys (sorted, each once)
/// and the expected root hash.
///
/// Every key is checked either to have a key/value pair in the proof or to
/// have its absence in the tree proven. Returns `Err` if the proof is
/// invalid, or one answer per key, in the keys' order: the proven value,
/// or `None` for a key proven absent.
#[verifier::rlimit(60)]
pub fn verify_query(bytes: &[u8], keys: &[Vec<u8>], expected_hash: [u8; 32]) -> (r: Result<Vec<Option<Vec<u8>>>, Error>)
    ensures
        match verify_keys_spec(bytes@, keys_view(keys@), expected_hash@) {
            Ok(out) => r matches Ok(x) && answers_view(x@) == out,
            Err(f) => r matches Err(e) && e.fault() == f,
        },
        r matches Err(Error::HashMismatch(e, a)) ==> (e == expected_hash && keys_run(
            keys_view(keys@),
            keys_init(),
            decode_stream(bytes@).0,
            ) is Ok && a@ == machine_root_hash(
            keys_run(
            keys_view(keys@),
            keys_init(),
            decode_stream(bytes@).0,
            )->Ok_0.machine,
        )),
{
    let ghost init = keys_init();
    let ghost kv = keys_view(keys@);
    let ghost all = decode_stream(bytes@);
    let mut decoder = Decoder::new(bytes);
    let mut exec = Executor::new(true);
    let mut cursor = KeysCursor { output: Vec::new(), last_push: None, ki: 0 };
    assert(answers_view(cursor.output@) =~= Seq::<Option<Seq<u8>>>::empty());
    let ghost mut done: Seq<OpV> = Seq::empty();
    let blen = bytes.len();
    assert(decode_stream(decoder.remaining()) == all);
    assert(all.0 =~= done + all.0);
    loop
        invariant
            init == keys_init(),
            kv == keys_view(keys@),
            blen == bytes@.len(),
            decoder.wf(),
            exec.inv(),
            exec.collapses(),
            exec.steps() == done.len(),
            cursor.ki <= keys@.len(),
            done.len() + decoder.remaining().len() <= blen,
            all == decode_stream(bytes@),
            all.0 == done + decode_stream(decoder.remaining()).0,
            all.1 == decode_stream(decoder.remaining()).1,
            keys_run(kv, init, done) == Ok::<KeysState, Fault>(KeysState { machine: exec.state(), cursor: cursor.view() }),
        ensures
            exec.inv(),
            exec.collapses(),
            cursor.ki <= keys@.len(),
            all.0 == done,
            all.1 is None,
            keys_run(kv, init, done) == Ok::<KeysState, Fault>(KeysState { machine: exec.state(), cursor: cursor.view() }),
        decreases decoder.remaining().len(),
    {
        let ghost rem = decoder.remaining();
        proof {
            lemma_decode_stream_step(rem);
        }
        match decoder.next() {
            None => {
                assert(decode_stream(rem).0 =~= Seq::<OpV>::empty());
                assert(all.0 =~= done);
                break;
            },
            Some(Err(e)) => {
                proof {
                    lemma_keys_decode_err(bytes@, kv, expected_hash@, done, rem);
                }
                return Err(e);
            },
            Some(Ok(op)) => {
                let ghost opv = op@;
                proof {
                    lemma_decode_len(rem);
                    lemma_keys_run_push(kv, init, done, opv);
                    assert(all.0 =~= done.push(opv) + decode_stream(decoder.remaining()).0);
                }
                match keys_apply(&mut exec, &mut cursor, keys, op) {
                    Ok(()) => {},
                    Err(e) => {
                        proof {
                            lemma_keys_step_err(
                                bytes@,
                                kv,
                                expected_hash@,
                                done,
                                opv,
                                decode_stream(decoder.remaining()).0,
                            );
                            lemma_keys_step_no_mismatch(kv, keys_run(kv, init, done)->Ok_0, opv);
                        }
                        return Err(e);
                    },
                }
                proof {
                    done = done.push(opv);
                }
            },
        }
    }
    let root = exec.finish()?;
    let mut output = cursor.output;
    if cursor.ki < keys.len() {
        let last_is_kv = match &cursor.last_push {
            Some(Node::KV(_, _)) => true,
            _ => false,
        };
        if !last_is_kv {
            return Err(Error::Proof("Proof incorrectly formed".to_owned()));
        }
        let mut i = cursor.ki;
        while i < keys.len()
            invariant
                cursor.ki <= i <= keys@.len(),
                answers_view(output@) == answers_view(cursor.output@) + Seq::new(
                    (i - cursor.ki) as nat,
                    |j: int| None::<Seq<u8>>,
                ),
            decreases keys@.len() - i,
        {
            let ghost before = output@;
            output.push(None);
            assert(answers_view(output@) =~= answers_view(before).push(None));
            assert(Seq::new((i + 1 - cursor.ki) as nat, |j: int| None::<Seq<u8>>) =~= Seq::new(
                (i - cursor.ki) as nat,
                |j: int| None::<Seq<u8>>,
            ).push(None));
            assert(answers_view(output@) =~= answers_view(cursor.output@) + Seq::new(
                (i + 1 - cursor.ki) as nat,
                |j: int| None::<Seq<u8>>,
            ));
            i = i + 1;
        }
    } else {
        assert(answers_view(output@) =~= answers_view(cursor.output@) + Seq::new(
            (keys@.len() - cursor.ki) as nat,
            |j: int| None::<Seq<u8>>,
        ));
    }
    let h = root.hash()?;
    if !hash_eq(&h, &expected_hash) {
        return Err(Error::HashMismatch(expected_hash, h));
    }
    Ok(output)
}

} // verus!
