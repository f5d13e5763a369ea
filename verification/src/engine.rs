use vstd::prelude::*;
use crate::error::XimError;
use crate::exec_ops::write_vec;
use crate::machine::{write_range, run, prepared, last_state};
use crate::executor::{Executor, reports};
use crate::ir::XimGraph;

verus! {

// The buffers of an inference engine that runs one graph over inputs
// followed by named parameter tensors.

/// The values of the parameter entries.
pub open spec fn param_views(ps: Seq<(u32, Vec<i16>)>) -> Seq<(u32, Seq<i16>)> {
    ps.map_values(|p: (u32, Vec<i16>)| (p.0, p.1@))
}

/// The parameter ids increase along the sequence.
pub open spec fn keys_increasing(ps: Seq<(u32, Seq<i16>)>) -> bool {
    forall|i: int, j: int| 0 <= i < j < ps.len() ==> #[trigger] ps[i].0 < #[trigger] ps[j].0
}

/// The number of ids below `id` (for increasing ids: the position of `id`).
pub open spec fn key_rank(ps: Seq<(u32, Seq<i16>)>, id: u32) -> int
    decreases ps.len(),
{
    if ps.len() == 0 {
        0
    } else if ps.last().0 < id {
        ps.len() as int
    } else {
        key_rank(ps.drop_last(), id)
    }
}

/// The parameters after setting tensor `id` to `data`: replaced in place
/// when the id is present, inserted at its position otherwise.
pub open spec fn set_param(ps: Seq<(u32, Seq<i16>)>, id: u32, data: Seq<i16>) -> Seq<(u32, Seq<i16>)> {
    let p = key_rank(ps, id);
    if p < ps.len() && ps[p].0 == id {
        ps.update(p, (id, data))
    } else {
        ps.insert(p, (id, data))
    }
}

/// The parameter tensors laid end to end, in order.
pub open spec fn concat_params(ps: Seq<(u32, Seq<i16>)>) -> Seq<i16>
    decreases ps.len(),
{
    if ps.len() == 0 {
        Seq::empty()
    } else {
        concat_params(ps.drop_last()) + ps.last().1
    }
}

/// `s` cut or extended with zeros to length `n`.
pub open spec fn resized(s: Seq<i16>, n: nat) -> Seq<i16> {
    if n <= s.len() {
        s.take(n as int)
    } else {
        s + Seq::new((n - s.len()) as nat, |i: int| 0i16)
    }
}

/// The input buffer after staging `inputs`: the inputs, then the
/// parameters when the buffer had to change length, else what the buffer
/// held after the inputs.
pub open spec fn staged(old_buf: Seq<i16>, inputs: Seq<i16>, ps: Seq<(u32, Seq<i16>)>) -> Seq<i16> {
    let total = inputs.len() + concat_params(ps).len();
    if old_buf.len() != total {
        inputs + concat_params(ps)
    } else {
        inputs + old_buf.skip(inputs.len() as int)
    }
}

/// The tensor of parameter `id`: its last entry in the sequence.
pub open spec fn param_lookup(ps: Seq<(u32, Seq<i16>)>, id: u32) -> Option<Seq<i16>>
    decreases ps.len(),
{
    if ps.len() == 0 {
        None
    } else if ps.last().0 == id {
        Some(ps.last().1)
    } else {
        param_lookup(ps.drop_last(), id)
    }
}

/// With increasing ids, the entry of an id is the one lookup finds.
pub proof fn lemma_lookup_at(ps: Seq<(u32, Seq<i16>)>, i: int)
    requires
        keys_increasing(ps),
        0 <= i < ps.len(),
    ensures
        param_lookup(ps, ps[i].0) == Some(ps[i].1),
    decreases ps.len(),
{
    if i < ps.len() - 1 {
        assert(ps[i].0 < ps[ps.len() - 1].0);
        let d = ps.drop_last();
        assert forall|a: int, b: int| 0 <= a < b < d.len() implies #[trigger] d[a].0 < #[trigger] d[b].0 by {
            assert(ps[a].0 < ps[b].0);
        }
        assert(d[i] == ps[i]);
        lemma_lookup_at(d, i);
    }
}

/// Lookup finds nothing for an id no entry has.
pub proof fn lemma_lookup_absent(ps: Seq<(u32, Seq<i16>)>, id: u32)
    requires
        forall|i: int| 0 <= i < ps.len() ==> #[trigger] ps[i].0 != id,
    ensures
        param_lookup(ps, id) is None,
    decreases ps.len(),
{
    if ps.len() > 0 {
        let d = ps.drop_last();
        assert(ps[ps.len() - 1].0 != id);
        assert forall|i: int| 0 <= i < d.len() implies #[trigger] d[i].0 != id by {
            assert(d[i] == ps[i]);
        }
        lemma_lookup_absent(d, id);
    }
}

/// With increasing ids, the rank of `id` splits the ids below it from the
/// others.
pub proof fn lemma_rank_splits(ps: Seq<(u32, Seq<i16>)>, id: u32)
    requires
        keys_increasing(ps),
    ensures
        0 <= key_rank(ps, id) <= ps.len(),
        forall|j: int| 0 <= j < key_rank(ps, id) ==> #[trigger] ps[j].0 < id,
        key_rank(ps, id) == ps.len() || ps[key_rank(ps, id)].0 >= id,
    decreases ps.len(),
{
    if ps.len() > 0 {
        let n = ps.len() - 1;
        if ps.last().0 < id {
            assert forall|j: int| 0 <= j < key_rank(ps, id) implies #[trigger] ps[j].0 < id by {
                if j < n {
                    assert(ps[j].0 < ps[n].0);
                }
            }
        } else {
            let d = ps.drop_last();
            assert forall|a: int, b: int| 0 <= a < b < d.len() implies #[trigger] d[a].0 < #[trigger] d[b].0 by {
                assert(ps[a].0 < ps[b].0);
            }
            lemma_rank_splits(d, id);
            assert forall|j: int| 0 <= j < key_rank(ps, id) implies #[trigger] ps[j].0 < id by {
                assert(d[j] == ps[j]);
            }
        }
    }
}

/// Setting a parameter keeps the ids increasing.
pub proof fn lemma_set_param_increasing(ps: Seq<(u32, Seq<i16>)>, id: u32, data: Seq<i16>, p: int)
    requires
        keys_increasing(ps),
        0 <= p <= ps.len(),
        forall|j: int| 0 <= j < p ==> #[trigger] ps[j].0 < id,
        p == ps.len() || ps[p].0 >= id,
    ensures
        keys_increasing(set_param(ps, id, data)),
        key_rank(ps, id) == p,
{
    lemma_key_rank(ps, id, p);
    let q = set_param(ps, id, data);
    if p < ps.len() && ps[p].0 == id {
        assert forall|a: int, b: int| 0 <= a < b < q.len() implies #[trigger] q[a].0 < #[trigger] q[b].0 by {
            assert(ps[a].0 < ps[b].0);
        }
    } else {
        assert forall|a: int, b: int| 0 <= a < b < q.len() implies #[trigger] q[a].0 < #[trigger] q[b].0 by {
            if b < p {
                assert(ps[a].0 < ps[b].0);
            } else if b == p {
            } else if a == p {
                assert(ps[b - 1].0 >= id) by {
                    if b - 1 > p {
                        assert(ps[p].0 < ps[b - 1].0);
                    }
                }
                assert(ps[b - 1].0 != id) by {
                    if b - 1 > p {
                        assert(ps[p].0 < ps[b - 1].0);
                    }
                }
            } else if a < p {
                assert(ps[a].0 < ps[b - 1].0);
            } else {
                assert(ps[a - 1].0 < ps[b - 1].0);
            }
        }
    }
}

/// For increasing ids, the first position whose id is not below `id` is
/// the rank of `id`.
proof fn lemma_key_rank(ps: Seq<(u32, Seq<i16>)>, id: u32, i: int)
    requires
        keys_increasing(ps),
        0 <= i <= ps.len(),
        forall|j: int| 0 <= j < i ==> #[trigger] ps[j].0 < id,
        i == ps.len() || ps[i].0 >= id,
    ensures
        key_rank(ps, id) == i,
    decreases ps.len(),
{
    if ps.len() > 0 {
        let n = ps.len() - 1;
        if ps.last().0 < id {
            if i < ps.len() {
                if i < n {
                    assert(ps[i].0 < ps[n].0);
                }
            }
        } else {
            let d = ps.drop_last();
            assert(i <= n) by {
                if i == ps.len() {
                    assert(ps[n].0 < id);
                }
            }
            assert forall|a: int, b: int| 0 <= a < b < d.len() implies #[trigger] d[a].0 < #[trigger] d[b].0 by {
                assert(ps[a].0 < ps[b].0);
            }
            lemma_key_rank(d, id, i);
        }
    }
}

proof fn lemma_concat_push(ps: Seq<(u32, Seq<i16>)>, k: int)
    requires
        0 <= k < ps.len(),
    ensures
        concat_params(ps.take(k + 1)) == concat_params(ps.take(k)) + ps[k].1,
{
    assert(ps.take(k + 1).drop_last() =~= ps.take(k));
}

/// `v` cut or extended with zeros to length `n`.
fn resize_zero(v: &mut Vec<i16>, n: usize)
    ensures
        final(v)@ == resized(old(v)@, n as nat),
{
    if n <= v.len() {
        v.truncate(n);
    } else {
        let ghost v0 = v@;
        while v.len() < n
            invariant
                v0.len() <= v@.len() <= n,
                v@ == v0 + Seq::new((v@.len() - v0.len()) as nat, |i: int| 0i16),
            decreases n - v.len(),
        {
            v.push(0);
            assert(v@ =~= v0 + Seq::new((v@.len() - v0.len()) as nat, |i: int| 0i16));
        }
    }
}

/// The input, parameter and output buffers of an engine.  The parameter
/// tensors are kept by increasing id (`wf`).
pub struct EngineBuffers {
    pub parameters: Vec<(u32, Vec<i16>)>,
    pub input_buffer: Vec<i16>,
    pub output_buffer: Vec<i16>,
}

impl EngineBuffers {
    /// The parameter tensors, by increasing id.
    pub open spec fn params(&self) -> Seq<(u32, Seq<i16>)> {
        param_views(self.parameters@)
    }

    /// The parameter ids increase.
    pub open spec fn wf(&self) -> bool {
        keys_increasing(self.params())
    }

    pub fn new() -> (r: Self)
        ensures
            r.wf(),
            r.params() == Seq::<(u32, Seq<i16>)>::empty(),
            r.input_buffer@ == Seq::<i16>::empty(),
            r.output_buffer@ == Seq::<i16>::empty(),
    {
        let r = EngineBuffers { parameters: Vec::new(), input_buffer: Vec::new(), output_buffer: Vec::new() };
        assert(r.params() =~= Seq::<(u32, Seq<i16>)>::empty());
        r
    }

    /// Sets parameter tensor `id` to `data`.
    pub fn set_parameter(&mut self, id: u32, data: Vec<i16>)
        requires
            old(self).wf(),
        ensures
            final(self).wf(),
            final(self).params() == set_param(old(self).params(), id, data@),
            final(self).input_buffer@ == old(self).input_buffer@,
            final(self).output_buffer@ == old(self).output_buffer@,
    {
        let ghost ps = self.params();
        let ghost dv = data@;
        let n = self.parameters.len();
        let mut i: usize = 0;
        while i < n && self.parameters[i].0 < id
            invariant
                n == self.parameters@.len(),
                ps == self.params(),
                i <= n,
                forall|j: int| 0 <= j < i ==> #[trigger] ps[j].0 < id,
            decreases n - i,
        {
            assert(ps[i as int].0 == self.parameters@[i as int].0);
            i += 1;
        }
        proof {
            if i < n {
                assert(ps[i as int].0 == self.parameters@[i as int].0);
            }
            lemma_set_param_increasing(ps, id, dv, i as int);
        }
        if i < n && self.parameters[i].0 == id {
            self.parameters.set(i, (id, data));
            assert(param_views(self.parameters@) =~= ps.update(i as int, (id, dv)));
        } else {
            self.parameters.insert(i, (id, data));
            assert(param_views(self.parameters@) =~= ps.insert(i as int, (id, dv)));
        }
    }

    /// The total length of the parameter tensors, `None` when it leaves
    /// usize.
    pub fn total_param_len(&self) -> (r: Option<usize>)
        ensures
            match r {
                Some(n) => n == concat_params(self.params()).len(),
                None => concat_params(self.params()).len() > usize::MAX,
            },
    {
        let ghost ps = self.params();
        let mut total: usize = 0;
        let mut k: usize = 0;
        while k < self.parameters.len()
            invariant
                ps == self.params(),
                k <= ps.len(),
                total == concat_params(ps.take(k as int)).len(),
            decreases self.parameters.len() - k,
        {
            proof {
                lemma_concat_push(ps, k as int);
            }
            let len = self.parameters[k].1.len();
            assert(len == ps[k as int].1.len());
            if len > usize::MAX - total {
                proof {
                    lemma_concat_prefix_len(ps, k as int + 1);
                }
                return None;
            }
            total = total + len;
            k += 1;
        }
        assert(ps.take(k as int) =~= ps);
        Some(total)
    }

    /// Stages `inputs` in the input buffer, followed by the parameters.
    /// When the buffer already has the length of inputs and parameters
    /// together, the part after the inputs is kept as it is: parameters
    /// set since then only reach the buffer when its length changes.
    /// Fails when that length leaves usize.
    pub fn stage_inputs(&mut self, inputs: &[i16]) -> (r: Result<(), XimError>)
        requires
            old(self).wf(),
        ensures
            final(self).wf(),
            final(self).params() == old(self).params(),
            final(self).output_buffer@ == old(self).output_buffer@,
            inputs@.len() + concat_params(old(self).params()).len() <= usize::MAX <==> r is Ok,
            r is Ok ==> final(self).input_buffer@ == staged(old(self).input_buffer@, inputs@, old(self).params()),
            r is Err ==> final(self).input_buffer@ == old(self).input_buffer@ && r->Err_0 is Memory,
    {
        let ghost ps = self.params();
        let ghost cat = concat_params(ps);
        let ghost old_buf = self.input_buffer@;
        let ghost out0 = self.output_buffer@;
        let ghost pars = self.parameters@;
        let pl = match self.total_param_len() {
            Some(n) => n,
            None => {
                return Err(XimError::Memory("input buffer exceeds the address space".to_string()));
            },
        };
        if inputs.len() > usize::MAX - pl {
            return Err(XimError::Memory("input buffer exceeds the address space".to_string()));
        }
        let dyn_len = inputs.len();
        let total = dyn_len + pl;
        let first_time = self.input_buffer.len() != total;
        if first_time {
            resize_zero(&mut self.input_buffer, total);
        }
        let ghost base = self.input_buffer@;
        assert(base.len() == total);

        let mut i: usize = 0;
        while i < dyn_len
            invariant
                dyn_len == inputs@.len(),
                i <= dyn_len <= total,
                base.len() == total,
                self.input_buffer@ == inputs@.take(i as int) + base.skip(i as int),
                self.output_buffer@ == out0,
                self.parameters@ == pars,
            decreases dyn_len - i,
        {
            self.input_buffer.set(i, inputs[i]);
            i += 1;
            assert(self.input_buffer@ =~= inputs@.take(i as int) + base.skip(i as int));
        }
        assert(inputs@.take(dyn_len as int) =~= inputs@);

        if first_time {
            let mut off: usize = dyn_len;
            let mut k: usize = 0;
            while k < self.parameters.len()
                invariant
                    ps == self.params(),
                    keys_increasing(ps),
                    k <= ps.len(),
                    total == dyn_len + cat.len(),
                    cat == concat_params(ps),
                    dyn_len == inputs@.len(),
                    base.len() == total,
                    off == dyn_len + concat_params(ps.take(k as int)).len(),
                    self.input_buffer@ == inputs@ + concat_params(ps.take(k as int)) + base.skip(off as int),
                    self.output_buffer@ == out0,
                    self.parameters@ == pars,
                decreases self.parameters.len() - k,
            {
                proof {
                    lemma_concat_push(ps, k as int);
                    lemma_concat_prefix_len(ps, k as int + 1);
                    assert(self.parameters@[k as int].1@ == ps[k as int].1);
                }
                let ghost before = self.input_buffer@;
                let plen = self.parameters[k].1.len();
                write_vec(&mut self.input_buffer, off, &self.parameters[k].1);
                proof {
                    assert(self.input_buffer@ =~= write_range(before, off as int, ps[k as int].1));
                    assert(self.input_buffer@ =~= inputs@ + concat_params(ps.take(k + 1)) + base.skip(off + plen));
                }
                off = off + plen;
                k += 1;
            }
            assert(ps.take(k as int) =~= ps);
            assert(base.skip(off as int) =~= Seq::<i16>::empty());
            assert(self.input_buffer@ =~= inputs@ + cat);
        } else {
            assert(self.input_buffer@ =~= inputs@ + old_buf.skip(dyn_len as int));
        }
        Ok(())
    }

    /// Runs `graph` on `executor` over the staged inputs, writing the output
    /// buffer (see `Executor::execute`).
    pub fn run_interpreter(&mut self, executor: &mut Executor, graph: &XimGraph) -> (r: Result<(), XimError>)
        ensures
            final(self).params() == old(self).params(),
            final(self).input_buffer@ == old(self).input_buffer@,
            match run(
                prepared(old(executor).state(old(self).output_buffer@), graph.ops(), graph.memory_size as nat),
                graph.ops(),
                old(self).input_buffer@,
            ) {
                Ok(s) => r is Ok && final(executor).state(final(self).output_buffer@) == s,
                Err(f) => r matches Err(e) && reports(e, f),
            },
            final(executor).state(final(self).output_buffer@) == last_state(
                prepared(old(executor).state(old(self).output_buffer@), graph.ops(), graph.memory_size as nat),
                graph.ops(),
                old(self).input_buffer@,
            ),
    {
        executor.execute(graph, self.input_buffer.as_slice(), self.output_buffer.as_mut_slice())
    }

    /// Gives the output buffer `output_size` elements, keeping those it
    /// had up to that length and adding zeros.
    pub fn prepare_outputs(&mut self, output_size: usize)
        ensures
            final(self).params() == old(self).params(),
            final(self).input_buffer@ == old(self).input_buffer@,
            final(self).output_buffer@ == resized(old(self).output_buffer@, output_size as nat),
    {
        if self.output_buffer.len() != output_size {
            resize_zero(&mut self.output_buffer, output_size);
        } else {
            assert(self.output_buffer@.take(output_size as int) =~= self.output_buffer@);
        }
    }
}

/// The parameters up to `k` are no longer than all of them.
proof fn lemma_concat_prefix_len(ps: Seq<(u32, Seq<i16>)>, k: int)
    requires
        0 <= k <= ps.len(),
    ensures
        concat_params(ps.take(k)).len() <= concat_params(ps).len(),
    decreases ps.len() - k,
{
    if k < ps.len() {
        lemma_concat_prefix_len(ps, k + 1);
        lemma_concat_push(ps, k);
    } else {
        assert(ps.take(k) =~= ps);
    }
}

} // verus!
