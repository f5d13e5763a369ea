use vstd::prelude::*;
use crate::error::XimError;
use crate::executor::{Executor, reports};
use crate::ir::XimGraph;
use crate::machine::{Fault, MachineState, prepared, run, last_state, lemma_run_out_len};
use crate::exec_ops::write_vec;

verus! {

/// Why a pipeline cannot run.
pub enum PipeFault {
    /// A layer lacks its parameters or its input or output size.
    MissingLayerInfo,
    /// A buffer length does not match: expected, found.
    Shape(nat, nat),
    /// A buffer length leaves usize.
    TooLarge,
    /// A layer's program faults.
    Machine(Fault),
}

/// The error that reports a pipeline fault.
pub open spec fn pipe_reports(e: XimError, f: PipeFault) -> bool {
    match f {
        PipeFault::MissingLayerInfo => e is InvalidGraph,
        PipeFault::Shape(ex, fo) => e matches XimError::ShapeMismatch { expected, found } && expected == ex && found == fo,
        PipeFault::TooLarge => e is Memory,
        PipeFault::Machine(mf) => reports(e, mf),
    }
}

/// The mathematical value of a pipeline: its layers' graphs, parameters and
/// token sizes.
pub struct PipelineView {
    pub graphs: Seq<XimGraph>,
    pub params: Seq<Seq<i16>>,
    pub in_sizes: Seq<usize>,
    pub out_sizes: Seq<usize>,
}

/// The machine state of a fresh layer: zeroed scratchpad and output buffer.
pub open spec fn fresh_layer(g: XimGraph, out_size: nat) -> MachineState {
    MachineState {
        mem: Seq::new(g.memory_size as nat, |i: int| 0i16),
        mem8: Seq::empty(),
        mem32: Seq::empty(),
        scales: Seq::empty(),
        out: Seq::new(out_size, |i: int| 0i16),
    }
}

/// One layer run over the first `k` tokens, in order, on one persistent
/// machine; each token is followed by the layer's parameters in the input
/// buffer.  Returns the machine and the output of each token.
pub open spec fn layer_tokens(g: XimGraph, params: Seq<i16>, st0: MachineState, tokens: Seq<Seq<i16>>, k: nat)
    -> Result<(MachineState, Seq<Seq<i16>>), Fault>
    decreases k,
{
    if k == 0 {
        Ok((st0, Seq::empty()))
    } else {
        match layer_tokens(g, params, st0, tokens, (k - 1) as nat) {
            Ok(p) => match run(prepared(p.0, g.ops(), g.memory_size as nat), g.ops(), tokens[k - 1] + params) {
                Ok(st) => Ok((st, p.1.push(st.out))),
                Err(f) => Err(f),
            },
            Err(f) => Err(f),
        }
    }
}

/// The layers from `i` on, applied to the stream of tokens.
pub open spec fn layers_from(p: PipelineView, tokens: Seq<Seq<i16>>, i: nat) -> Result<Seq<Seq<i16>>, Fault>
    decreases p.graphs.len() - i,
{
    if i >= p.graphs.len() {
        Ok(tokens)
    } else {
        match layer_tokens(
            p.graphs[i as int],
            p.params[i as int],
            fresh_layer(p.graphs[i as int], p.out_sizes[i as int] as nat),
            tokens,
            tokens.len(),
        ) {
            Ok(r) => layers_from(p, r.1, i + 1),
            Err(f) => Err(f),
        }
    }
}

/// The tokens laid end to end.
pub open spec fn flatten(tokens: Seq<Seq<i16>>) -> Seq<i16>
    decreases tokens.len(),
{
    if tokens.len() == 0 {
        Seq::empty()
    } else {
        flatten(tokens.drop_last()) + tokens.last()
    }
}

/// The `batch` input tokens of `size` values each.
pub open spec fn split_tokens(inputs: Seq<i16>, size: nat, batch: nat) -> Seq<Seq<i16>> {
    Seq::new(batch, |c: int| inputs.subrange(c * size, (c + 1) * size))
}

/// The first layer `i >= k` whose input size differs from the output size
/// of layer `i - 1`, if any.
pub open spec fn first_seam_mismatch(p: PipelineView, k: nat) -> Option<nat>
    decreases p.graphs.len() - k,
{
    if k >= p.graphs.len() {
        None
    } else if k >= 1 && p.in_sizes[k as int] != p.out_sizes[k - 1] {
        Some(k)
    } else {
        first_seam_mismatch(p, k + 1)
    }
}

/// Why `batch` tokens cannot run through a pipeline of at least one layer,
/// if anything stops them: missing layer information, buffers too large
/// for usize, and for a nonempty batch too few inputs, a layer whose input
/// size is not the output size of the layer before, or a last output size
/// that is not the last layer's.
pub open spec fn pipeline_fault(p: PipelineView, inputs: Seq<i16>, batch: nat) -> Option<PipeFault> {
    let n = p.graphs.len();
    if !(p.in_sizes.len() >= n && p.out_sizes.len() >= n && p.params.len() >= n) {
        Some(PipeFault::MissingLayerInfo)
    } else {
        let in0 = p.in_sizes[0] as nat;
        let out_dim = p.out_sizes.last() as nat;
        if batch * out_dim > usize::MAX || batch * in0 > usize::MAX
            || exists|i: int| 0 <= i < n && #[trigger] p.in_sizes[i] + p.params[i].len() > usize::MAX {
            Some(PipeFault::TooLarge)
        } else if batch == 0 {
            None
        } else if inputs.len() < batch * in0 {
            Some(PipeFault::Shape(batch * in0, inputs.len()))
        } else if first_seam_mismatch(p, 0) is Some {
            let k = first_seam_mismatch(p, 0)->0;
            Some(PipeFault::Shape(p.in_sizes[k as int] as nat, p.out_sizes[k - 1] as nat))
        } else if out_dim != p.out_sizes[n - 1] {
            Some(PipeFault::Shape(out_dim, p.out_sizes[n - 1] as nat))
        } else {
            None
        }
    }
}

/// The result of running `batch` tokens through the pipeline: each layer
/// turns the stream of tokens of its input size into tokens of its output
/// size; the outputs of the last layer are laid end to end.
pub open spec fn pipeline_result(p: PipelineView, inputs: Seq<i16>, batch: nat) -> Result<Seq<i16>, PipeFault> {
    if p.graphs.len() == 0 {
        Ok(inputs)
    } else {
        match pipeline_fault(p, inputs, batch) {
            Some(f) => Err(f),
            None => if batch == 0 {
                Ok(Seq::empty())
            } else {
                match layers_from(p, split_tokens(inputs, p.in_sizes[0] as nat, batch), 0) {
                    Ok(t) => Ok(flatten(t)),
                    Err(f) => Err(PipeFault::Machine(f)),
                }
            },
        }
    }
}

/// Runs a stack of layer graphs over a batch of tokens.
pub struct PipelineExecutor {
    graphs: Vec<XimGraph>,
    parameters: Vec<Vec<i16>>,
    layer_input_sizes: Vec<usize>,
    layer_output_sizes: Vec<usize>,
}

impl View for PipelineExecutor {
    type V = PipelineView;

    closed spec fn view(&self) -> PipelineView {
        PipelineView {
            graphs: self.graphs@,
            params: self.parameters@.map_values(|v: Vec<i16>| v@),
            in_sizes: self.layer_input_sizes@,
            out_sizes: self.layer_output_sizes@,
        }
    }
}

/// The values of a sequence of vectors.
pub open spec fn views(v: Seq<Vec<i16>>) -> Seq<Seq<i16>> {
    v.map_values(|x: Vec<i16>| x@)
}

/// A vector of `n` zeros.
fn zeros(n: usize) -> (r: Vec<i16>)
    ensures
        r@ == Seq::new(n as nat, |i: int| 0i16),
{
    let mut r: Vec<i16> = Vec::new();
    let mut k: usize = 0;
    while k < n
        invariant
            k <= n,
            r@ == Seq::new(k as nat, |i: int| 0i16),
        decreases n - k,
    {
        r.push(0);
        k += 1;
        assert(r@ =~= Seq::new(k as nat, |i: int| 0i16));
    }
    r
}

/// Copies `s[off..off + len]`.
fn copy_of(s: &[i16], off: usize, len: usize) -> (r: Vec<i16>)
    requires
        off + len <= s@.len(),
    ensures
        r@ == s@.subrange(off as int, off + len),
{
    let mut r: Vec<i16> = Vec::new();
    let mut k: usize = 0;
    while k < len
        invariant
            off + len <= s.len(),
            k <= len,
            r@ == s@.subrange(off as int, off + k),
        decreases len - k,
    {
        r.push(s[off + k]);
        k += 1;
        assert(r@ =~= s@.subrange(off as int, off + k));
    }
    r
}

impl PipelineExecutor {
    pub fn new(
        graphs: Vec<XimGraph>,
        parameters: Vec<Vec<i16>>,
        layer_input_sizes: Vec<usize>,
        layer_output_sizes: Vec<usize>,
    ) -> (r: Self)
        ensures
            r@ == (PipelineView {
                graphs: graphs@,
                params: views(parameters@),
                in_sizes: layer_input_sizes@,
                out_sizes: layer_output_sizes@,
            }),
    {
        PipelineExecutor { graphs, parameters, layer_input_sizes, layer_output_sizes }
    }

    /// Runs layer `i` over the stream of tokens.
    fn run_layer(&self, i: usize, tokens: &Vec<Vec<i16>>) -> (r: Result<Vec<Vec<i16>>, XimError>)
        requires
            i < self@.graphs.len(),
            i < self@.params.len(),
            i < self@.in_sizes.len(),
            i < self@.out_sizes.len(),
            self@.in_sizes[i as int] + self@.params[i as int].len() <= usize::MAX,
            forall|c: int| 0 <= c < tokens@.len() ==> #[trigger] tokens@[c]@.len() == self@.in_sizes[i as int],
        ensures
            match layer_tokens(
                self@.graphs[i as int],
                self@.params[i as int],
                fresh_layer(self@.graphs[i as int], self@.out_sizes[i as int] as nat),
                views(tokens@),
                tokens@.len(),
            ) {
                Ok(p) => r matches Ok(v) && views(v@) == p.1,
                Err(f) => r matches Err(e) && reports(e, f),
            },
            r matches Ok(v) ==> v@.len() == tokens@.len() && forall|c: int|
                0 <= c < v@.len() ==> #[trigger] v@[c]@.len() == self@.out_sizes[i as int],
    {
        let ghost g = self@.graphs[i as int];
        let ghost pv = self@.params[i as int];
        let ghost toks = views(tokens@);
        let ghost out_size = self@.out_sizes[i as int];
        let mut runner = self.fresh_runner(i);
        let ghost st0 = runner@.state;
        let mut outs: Vec<Vec<i16>> = Vec::new();
        let mut c: usize = 0;
        assert(views(outs@) =~= Seq::<Seq<i16>>::empty());
        while c < tokens.len()
            invariant
                c <= tokens@.len(),
                toks == views(tokens@),
                forall|t: int| 0 <= t < tokens@.len() ==> #[trigger] tokens@[t]@.len() == runner@.in_size,
                i < self@.graphs.len(),
                i < self@.params.len(),
                i < self@.out_sizes.len(),
                g == self@.graphs[i as int],
                pv == self@.params[i as int],
                out_size == self@.out_sizes[i as int],
                runner.wf(),
                runner@.graph == g,
                runner@.params == pv,
                runner@.state.out.len() == out_size,
                st0 == fresh_layer(g, out_size as nat),
                outs@.len() == c,
                forall|t: int| 0 <= t < c ==> #[trigger] outs@[t]@.len() == out_size,
                layer_tokens(g, pv, st0, toks, c as nat) == Ok::<(MachineState, Seq<Seq<i16>>), Fault>(
                    (runner@.state, views(outs@)),
                ),
            decreases tokens@.len() - c,
        {
            assert(toks[c as int] == tokens@[c as int]@);
            let ghost rr = run(prepared(runner@.state, g.ops(), g.memory_size as nat), g.ops(), toks[c as int] + pv);
            match runner.run_token(&tokens[c]) {
                Ok(out) => {
                    let ghost outs0 = views(outs@);
                    outs.push(out);
                    assert(views(outs@) =~= outs0.push(runner@.state.out));
                },
                Err(e) => {
                    proof {
                        assert(rr is Err);
                        assert(reports(e, rr->Err_0));
                        assert(layer_tokens(g, pv, st0, toks, (c + 1) as nat)
                            == Err::<(MachineState, Seq<Seq<i16>>), Fault>(rr->Err_0));
                        lemma_layer_tokens_stops(g, pv, st0, toks, (c + 1) as nat, tokens@.len());
                    }
                    return Err(e);
                },
            }
            c += 1;
        }
        Ok(outs)
    }

    /// The runner of layer `i`, on a fresh machine.
    fn fresh_runner(&self, i: usize) -> (r: LayerRunner<'_>)
        requires
            i < self@.graphs.len(),
            i < self@.params.len(),
            i < self@.in_sizes.len(),
            i < self@.out_sizes.len(),
            self@.in_sizes[i as int] + self@.params[i as int].len() <= usize::MAX,
        ensures
            r.wf(),
            r@ == (LayerView {
                graph: self@.graphs[i as int],
                params: self@.params[i as int],
                in_size: self@.in_sizes[i as int] as nat,
                state: fresh_layer(self@.graphs[i as int], self@.out_sizes[i as int] as nat),
            }),
    {
        assert(self@.params[i as int] == self.parameters@[i as int]@);
        LayerRunner::new(&self.graphs[i], &self.parameters[i], self.layer_input_sizes[i], self.layer_output_sizes[i])
    }

    /// The runner of layer `i`, on a fresh machine; `None` when the layer
    /// lacks its parameters or sizes, or its input buffer leaves usize.
    pub fn layer_runner(&self, i: usize) -> (r: Option<LayerRunner<'_>>)
        ensures
            r is Some <==> (i < self@.graphs.len() && i < self@.params.len() && i < self@.in_sizes.len()
                && i < self@.out_sizes.len() && self@.in_sizes[i as int] + self@.params[i as int].len() <= usize::MAX),
            r matches Some(x) ==> x.wf() && x@ == (LayerView {
                graph: self@.graphs[i as int],
                params: self@.params[i as int],
                in_size: self@.in_sizes[i as int] as nat,
                state: fresh_layer(self@.graphs[i as int], self@.out_sizes[i as int] as nat),
            }),
    {
        if i < self.graphs.len() && i < self.parameters.len() && i < self.layer_input_sizes.len()
            && i < self.layer_output_sizes.len() {
            assert(self@.params[i as int] == self.parameters@[i as int]@);
            if self.parameters[i].len() <= usize::MAX - self.layer_input_sizes[i] {
                return Some(self.fresh_runner(i));
            }
        }
        None
    }
}

/// The mathematical value of a layer runner.
pub struct LayerView {
    pub graph: XimGraph,
    pub params: Seq<i16>,
    pub in_size: nat,
    pub state: MachineState,
}

/// One layer of a pipeline at work: its graph, the machine that runs it, and
/// its input buffer, which holds the current token followed by the layer's
/// parameters.
pub struct LayerRunner<'a> {
    pub graph: &'a XimGraph,
    pub executor: Executor,
    pub input_buffer: Vec<i16>,
    pub output_buffer: Vec<i16>,
    pub in_size: usize,
}

impl<'a> View for LayerRunner<'a> {
    type V = LayerView;

    closed spec fn view(&self) -> LayerView {
        LayerView {
            graph: *self.graph,
            params: self.input_buffer@.skip(self.in_size as int),
            in_size: self.in_size as nat,
            state: self.executor.state(self.output_buffer@),
        }
    }
}

impl<'a> LayerRunner<'a> {
    /// The input buffer holds a token before the parameters.
    pub closed spec fn wf(&self) -> bool {
        self.input_buffer@.len() >= self.in_size
    }

    /// A runner of `graph` on a fresh machine, with `params` after tokens of
    /// `in_size` values and outputs of `out_size` values.
    pub fn new(graph: &'a XimGraph, params: &Vec<i16>, in_size: usize, out_size: usize) -> (r: Self)
        requires
            in_size + params@.len() <= usize::MAX,
        ensures
            r.wf(),
            r@ == (LayerView {
                graph: *graph,
                params: params@,
                in_size: in_size as nat,
                state: fresh_layer(*graph, out_size as nat),
            }),
    {
        let executor = Executor::new(graph.memory_size);
        let mut input_buffer = zeros(in_size);
        let mut k: usize = 0;
        while k < params.len()
            invariant
                k <= params.len(),
                in_size + params@.len() <= usize::MAX,
                input_buffer@ == Seq::new(in_size as nat, |j: int| 0i16) + params@.take(k as int),
            decreases params.len() - k,
        {
            input_buffer.push(params[k]);
            k += 1;
            assert(input_buffer@ =~= Seq::new(in_size as nat, |j: int| 0i16) + params@.take(k as int));
        }
        assert(params@.take(k as int) =~= params@);
        let output_buffer = zeros(out_size);
        let r = LayerRunner { graph, executor, input_buffer, output_buffer, in_size };
        assert(r@.params =~= params@);
        assert(r@.state =~= fresh_layer(*graph, out_size as nat));
        r
    }

    /// The number of values of a token.
    pub fn in_size(&self) -> (n: usize)
        ensures
            n == self@.in_size,
    {
        self.in_size
    }

    /// Puts `token` in front of the parameters in the input buffer, for a
    /// host that runs the graph on the runner's machine itself.
    pub fn stage_token(&mut self, token: &[i16])
        requires
            old(self).wf(),
            token@.len() == old(self)@.in_size,
        ensures
            final(self).wf(),
            final(self)@ == old(self)@,
            final(self).input_buffer@ == token@ + old(self)@.params,
            final(self).graph == old(self).graph,
    {
        let ghost params = self@.params;
        let tv = copy_of(token, 0, token.len());
        assert(tv@ =~= token@);
        write_vec(&mut self.input_buffer, 0, &tv);
        assert(self.input_buffer@ =~= token@ + params);
        assert(self.input_buffer@.skip(self.in_size as int) =~= params);
    }

    /// Runs the layer's graph on `token` followed by the parameters, on the
    /// layer's machine, and returns the output buffer.
    pub fn run_token(&mut self, token: &[i16]) -> (r: Result<Vec<i16>, XimError>)
        requires
            old(self).wf(),
            token@.len() == old(self)@.in_size,
        ensures
            final(self).wf(),
            final(self)@.graph == old(self)@.graph,
            final(self)@.params == old(self)@.params,
            final(self)@.in_size == old(self)@.in_size,
            match run(
                prepared(old(self)@.state, old(self)@.graph.ops(), old(self)@.graph.memory_size as nat),
                old(self)@.graph.ops(),
                token@ + old(self)@.params,
            ) {
                Ok(s) => r matches Ok(v) && v@ == s.out && final(self)@.state == s && s.out.len()
                    == old(self)@.state.out.len(),
                Err(f) => r matches Err(e) && reports(e, f),
            },
            final(self)@.state == last_state(
                prepared(old(self)@.state, old(self)@.graph.ops(), old(self)@.graph.memory_size as nat),
                old(self)@.graph.ops(),
                token@ + old(self)@.params,
            ),
    {
        let ghost params = self@.params;
        let ghost before = self@.state;
        let ghost g = *self.graph;
        self.stage_token(token);
        let res = self.executor.execute(self.graph, self.input_buffer.as_slice(), self.output_buffer.as_mut_slice());
        match res {
            Ok(()) => {
                proof {
                    lemma_run_out_len(prepared(before, g.ops(), g.memory_size as nat), g.ops(), token@ + params);
                }
                let out = copy_of(self.output_buffer.as_slice(), 0, self.output_buffer.len());
                assert(out@ =~= self.output_buffer@);
                Ok(out)
            },
            Err(e) => Err(e),
        }
    }
}

/// A pipeline whose layers from `i` on fault on some layer faults.
proof fn lemma_layers_from_err(p: PipelineView, tokens: Seq<Seq<i16>>, i: nat)
    requires
        i < p.graphs.len(),
        layer_tokens(
            p.graphs[i as int],
            p.params[i as int],
            fresh_layer(p.graphs[i as int], p.out_sizes[i as int] as nat),
            tokens,
            tokens.len(),
        ) is Err,
    ensures
        layers_from(p, tokens, i) is Err,
        layers_from(p, tokens, i) matches Err(f) ==> layer_tokens(
            p.graphs[i as int],
            p.params[i as int],
            fresh_layer(p.graphs[i as int], p.out_sizes[i as int] as nat),
            tokens,
            tokens.len(),
        ) == Err::<(MachineState, Seq<Seq<i16>>), Fault>(f),
{
}

impl PipelineExecutor {
    /// The number of layers.
    pub fn layer_count(&self) -> (n: usize)
        ensures
            n == self@.graphs.len(),
    {
        self.graphs.len()
    }

    /// Checks that `batch_size` tokens can run through the pipeline (see
    /// `pipeline_fault`) and splits the inputs into them.
    #[verifier::loop_isolation(false)]
    pub fn split_batch(&self, inputs: &[i16], batch_size: usize) -> (r: Result<Vec<Vec<i16>>, XimError>)
        requires
            self@.graphs.len() > 0,
        ensures
            match pipeline_fault(self@, inputs@, batch_size as nat) {
                Some(f) => r matches Err(e) && pipe_reports(e, f),
                None => r matches Ok(t) && views(t@) == split_tokens(inputs@, self@.in_sizes[0] as nat, batch_size as nat)
                    && forall|c: int| 0 <= c < t@.len() ==> #[trigger] t@[c]@.len() == self@.in_sizes[0],
            },
    {
        let ghost pv = self@;
        let num_layers = self.graphs.len();
        if self.layer_input_sizes.len() < num_layers || self.layer_output_sizes.len() < num_layers
            || self.parameters.len() < num_layers {
            return Err(XimError::InvalidGraph("pipeline layer without sizes or parameters".to_string()));
        }
        let input_dim = self.layer_input_sizes[0];
        let output_dim = self.layer_output_sizes[self.layer_output_sizes.len() - 1];
        assert(output_dim == pv.out_sizes.last());
        let total_out = batch_size.checked_mul(output_dim);
        let total_in = batch_size.checked_mul(input_dim);
        if total_out.is_none() || total_in.is_none() {
            return Err(XimError::Memory("pipeline buffers exceed the address space".to_string()));
        }
        let mut i: usize = 0;
        while i < num_layers
            invariant
                pv == self@,
                num_layers == pv.graphs.len(),
                pv.in_sizes.len() >= num_layers,
                pv.params.len() >= num_layers,
                i <= num_layers,
                forall|k: int| 0 <= k < i ==> #[trigger] pv.in_sizes[k] + pv.params[k].len() <= usize::MAX,
            decreases num_layers - i,
        {
            assert(pv.params[i as int] == self.parameters@[i as int]@);
            if self.parameters[i].len() > usize::MAX - self.layer_input_sizes[i] {
                assert(pv.in_sizes[i as int] + pv.params[i as int].len() > usize::MAX);
                return Err(XimError::Memory("pipeline buffers exceed the address space".to_string()));
            }
            i += 1;
        }
        if batch_size == 0 {
            return Ok(Vec::new());
        }
        let needed = batch_size * input_dim;
        if inputs.len() < needed {
            return Err(XimError::ShapeMismatch { expected: needed, found: inputs.len() });
        }
        let mut k: usize = 1;
        while k < num_layers
            invariant
                pv == self@,
                num_layers == pv.graphs.len(),
                pv.in_sizes.len() >= num_layers,
                pv.out_sizes.len() >= num_layers,
                1 <= k <= num_layers,
                first_seam_mismatch(pv, 0) == first_seam_mismatch(pv, k as nat),
            decreases num_layers - k,
        {
            if self.layer_input_sizes[k] != self.layer_output_sizes[k - 1] {
                assert(first_seam_mismatch(pv, k as nat) == Some(k as nat));
                return Err(XimError::ShapeMismatch {
                    expected: self.layer_input_sizes[k],
                    found: self.layer_output_sizes[k - 1],
                });
            }
            k += 1;
        }
        if output_dim != self.layer_output_sizes[num_layers - 1] {
            return Err(XimError::ShapeMismatch { expected: output_dim, found: self.layer_output_sizes[num_layers - 1] });
        }
        // Split the batch into tokens.
        let mut tokens: Vec<Vec<i16>> = Vec::new();
        let mut c: usize = 0;
        while c < batch_size
            invariant
                c <= batch_size,
                batch_size * input_dim <= inputs.len(),
                views(tokens@) == split_tokens(inputs@, input_dim as nat, batch_size as nat).take(c as int),
                forall|t: int| 0 <= t < tokens@.len() ==> #[trigger] tokens@[t]@.len() == input_dim,
            decreases batch_size - c,
        {
            assert((c + 1) * input_dim <= batch_size * input_dim) by (nonlinear_arith)
                requires
                    c + 1 <= batch_size,
            ;
            assert(c * input_dim <= batch_size * input_dim) by (nonlinear_arith)
                requires
                    c <= batch_size,
            ;
            let start = c * input_dim;
            assert(start + input_dim == (c + 1) * input_dim) by (nonlinear_arith)
                requires
                    start == c * input_dim,
            ;
            let token = copy_of(inputs, start, input_dim);
            let ghost t0 = views(tokens@);
            assert(split_tokens(inputs@, input_dim as nat, batch_size as nat)[c as int] == token@);
            tokens.push(token);
            assert(views(tokens@) =~= t0.push(token@));
            c += 1;
            assert(views(tokens@) =~= split_tokens(inputs@, input_dim as nat, batch_size as nat).take(c as int));
        }
        assert(split_tokens(inputs@, input_dim as nat, batch_size as nat).take(c as int) =~= split_tokens(
            inputs@,
            input_dim as nat,
            batch_size as nat,
        ));
        Ok(tokens)
    }

    /// Execute pipeline by chunking the batch size.
    /// `inputs` is [batch_size * input_dim]
    /// returns output [batch_size * output_dim]
    #[verifier::loop_isolation(false)]
    pub fn execute(&self, inputs: &[i16], batch_size: usize) -> (r: Result<Vec<i16>, XimError>)
        ensures
            match pipeline_result(self@, inputs@, batch_size as nat) {
                Ok(v) => r matches Ok(x) && x@ == v,
                Err(f) => r matches Err(e) && pipe_reports(e, f),
            },
    {
        let ghost pv = self@;
        let num_layers = self.graphs.len();
        if num_layers == 0 {
            return Ok(copy_of(inputs, 0, inputs.len()));
        }
        let mut tokens = match self.split_batch(inputs, batch_size) {
            Ok(t) => t,
            Err(e) => {
                return Err(e);
            },
        };
        if batch_size == 0 {
            return Ok(Vec::new());
        }
        assert(pipeline_fault(pv, inputs@, batch_size as nat) is None);
        assert(first_seam_mismatch(pv, 0) is None);
        // Run the layers in turn over the stream of tokens.
        let ghost toks0 = views(tokens@);
        let mut layer: usize = 0;
        while layer < num_layers
            invariant
                pv == self@,
                num_layers == pv.graphs.len(),
                pv.in_sizes.len() >= num_layers,
                pv.out_sizes.len() >= num_layers,
                pv.params.len() >= num_layers,
                forall|kk: int| 0 <= kk < num_layers ==> #[trigger] pv.in_sizes[kk] + pv.params[kk].len() <= usize::MAX,
                first_seam_mismatch(pv, layer as nat) is None,
                layer <= num_layers,
                layers_from(pv, toks0, 0) == layers_from(pv, views(tokens@), layer as nat),
                forall|t: int| 0 <= t < tokens@.len() ==> (if layer == 0 {
                    #[trigger] tokens@[t]@.len() == pv.in_sizes[0]
                } else {
                    tokens@[t]@.len() == pv.out_sizes[layer - 1]
                }),
            decreases num_layers - layer,
        {
            assert(layer >= 1 ==> pv.in_sizes[layer as int] == pv.out_sizes[layer - 1]);
            assert(first_seam_mismatch(pv, (layer + 1) as nat) is None);
            let ghost tv = views(tokens@);
            match self.run_layer(layer, &tokens) {
                Ok(next) => {
                    tokens = next;
                },
                Err(e) => {
                    proof {
                        lemma_layers_from_err(pv, tv, layer as nat);
                    }
                    return Err(e);
                },
            }
            layer += 1;
        }
        // Lay the outputs end to end.
        let ghost outs = views(tokens@);
        let mut final_outputs: Vec<i16> = Vec::new();
        let mut t: usize = 0;
        while t < tokens.len()
            invariant
                outs == views(tokens@),
                t <= tokens@.len(),
                final_outputs@ == flatten(outs.take(t as int)),
            decreases tokens@.len() - t,
        {
            assert(outs.take(t + 1).drop_last() =~= outs.take(t as int));
            let piece = &tokens[t];
            let mut q: usize = 0;
            let ghost f0 = final_outputs@;
            while q < piece.len()
                invariant
                    q <= piece@.len(),
                    final_outputs@ == f0 + piece@.take(q as int),
                decreases piece@.len() - q,
            {
                final_outputs.push(piece[q]);
                q += 1;
                assert(final_outputs@ =~= f0 + piece@.take(q as int));
            }
            assert(piece@.take(q as int) =~= piece@);
            t += 1;
        }
        assert(outs.take(t as int) =~= outs);
        Ok(final_outputs)
    }
}

/// A stream whose first `k` tokens fault faults as a whole.
proof fn lemma_layer_tokens_stops(
    g: XimGraph,
    params: Seq<i16>,
    st0: MachineState,
    tokens: Seq<Seq<i16>>,
    k: nat,
    n: nat,
)
    requires
        k <= n,
        layer_tokens(g, params, st0, tokens, k) is Err,
    ensures
        layer_tokens(g, params, st0, tokens, n) == layer_tokens(g, params, st0, tokens, k),
    decreases n - k,
{
    if k < n {
        lemma_layer_tokens_stops(g, params, st0, tokens, k + 1, n);
    }
}

} // verus!
