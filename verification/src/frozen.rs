//! Frozen views: a rendered projection at one moment, with everything that a
//! reader needs to check it and to render it again.

pub mod example;

use vstd::bytes::{spec_u64_to_le_bytes, u64_to_le_bytes};
use vstd::prelude::*;

use crate::bytes::{same_array, same_bytes};
use crate::canon::{field, text_field, text_fields, CanonicalWriter};
use crate::digest::{sha256, sha256_of};
use crate::dossier::{Dossier, DossierCheck};
use crate::graph::{GraphView, TrustGraph};
use crate::s13::{decision_views, DecisionView};
use crate::segments::Segment;
use crate::sets::texts;
use crate::text::{cat3, cat5, same_text};
use crate::{first_error, ErrorView, SignatifError};

verus! {

/// How a projection stands to time.
#[derive(Debug, Clone, Copy, PartialEq, Eq, Structural)]
pub enum TemporalAxis {
    /// It follows the state.
    Continuous,
    /// It shows one moment.
    PointInTime,
}

impl TemporalAxis {
    /// The token of the axis.
    pub open spec fn spec_token(self) -> Seq<char> {
        match self {
            TemporalAxis::Continuous => "continuous"@,
            TemporalAxis::PointInTime => "point-in-time"@,
        }
    }

    /// The token of the axis.
    pub fn token(self) -> (r: &'static str)
        ensures
            r@ == self.spec_token(),
    {
        match self {
            TemporalAxis::Continuous => "continuous",
            TemporalAxis::PointInTime => "point-in-time",
        }
    }
}

/// What kind of projection a view is: its place on the time axis, and the
/// token of its place on the other axes.
#[derive(Debug, Clone, PartialEq, Eq)]
pub struct ProjectionDescriptor {
    /// The other axes.
    pub shape: String,
    /// The time axis.
    pub temporal: TemporalAxis,
}

impl ProjectionDescriptor {
    /// The token of the descriptor.
    pub open spec fn spec_token(self) -> Seq<char> {
        self.shape@ + "/"@ + self.temporal.spec_token()
    }

    /// The token of the descriptor.
    pub fn token(&self) -> (r: String)
        ensures
            r@ == self.spec_token(),
    {
        cat3(self.shape.as_str(), "/", self.temporal.token())
    }
}

/// One step of a lens.
#[derive(Debug, Clone, PartialEq, Eq)]
pub struct TransformStep {
    /// The transform.
    pub reference: String,
    /// Its version.
    pub version: u64,
}

/// The lens that rendered a view.
#[derive(Debug, Clone, PartialEq, Eq)]
pub struct LensMetadata {
    /// The profile.
    pub profile: String,
    /// The transforms, in the order of their application.
    pub transforms: Vec<TransformStep>,
    /// The input channels, each with the segment that pins it.
    pub input_segments: Vec<(String, String)>,
}

/// An input of a lens.
#[derive(Debug, Clone, PartialEq, Eq)]
pub struct FrozenInput {
    /// The channel.
    pub name: String,
    /// The segment whose commitment pins the bytes.
    pub segment: String,
    /// The bytes.
    pub bytes: Vec<u8>,
}

/// A frozen view.
#[derive(Debug, Clone, PartialEq, Eq)]
pub struct FrozenView {
    /// The passport.
    pub subject: String,
    /// The rendered payload.
    pub payload: Vec<u8>,
    /// What kind of projection it is.
    pub descriptor: ProjectionDescriptor,
    /// The lens.
    pub lens: LensMetadata,
    /// The inputs of the lens.
    pub inputs: Vec<FrozenInput>,
    /// The dossier that proves the inputs.
    pub bundle: Dossier,
    /// How to check the view, step by step.
    pub instructions: Vec<String>,
    /// The moment, in RFC 3339.
    pub notarized_at: String,
}

/// Why a projection cannot be frozen.
pub open spec fn freeze_error(descriptor: ProjectionDescriptor, instructions: int) -> Option<
    ErrorView,
> {
    if descriptor.temporal != TemporalAxis::PointInTime {
        Some(
            ErrorView::Validation(
                "freeze refused: the descriptor is continuous — freezing is the point-in-time act (declare point-in-time)"@,
            ),
        )
    } else if instructions == 0 {
        Some(
            ErrorView::Validation(
                "freeze refused: reader instructions are required (self-describing means describing how to verify)"@,
            ),
        )
    } else {
        None
    }
}

/// The steps of a lens as fields.
pub open spec fn step_bytes(s: Seq<TransformStep>) -> Seq<u8>
    decreases s.len(),
{
    if s.len() == 0 {
        Seq::empty()
    } else {
        step_bytes(s.drop_last()) + (text_field(s.last().reference@) + field(
            spec_u64_to_le_bytes(s.last().version),
        ))
    }
}

/// The channels of a lens as fields.
pub open spec fn channel_bytes(s: Seq<(String, String)>) -> Seq<u8>
    decreases s.len(),
{
    if s.len() == 0 {
        Seq::empty()
    } else {
        channel_bytes(s.drop_last()) + (text_field(s.last().0@) + text_field(s.last().1@))
    }
}

/// The inputs as fields: each by its name and the commitment to its bytes.
pub open spec fn input_bytes(s: Seq<FrozenInput>) -> Seq<u8>
    decreases s.len(),
{
    if s.len() == 0 {
        Seq::empty()
    } else {
        input_bytes(s.drop_last()) + (text_field(s.last().name@) + field(
            sha256_of(s.last().bytes@),
        ))
    }
}

/// Whether a lens has a channel with a name and a segment.
pub open spec fn has_channel(
    channels: Seq<(String, String)>,
    name: Seq<char>,
    segment: Seq<char>,
) -> bool {
    exists|i: int|
        0 <= i < channels.len() && (#[trigger] channels[i]).0@ == name && channels[i].1@
            == segment
}

impl FrozenView {
    /// The canonical bytes.
    pub open spec fn canonical(self) -> Seq<u8> {
        text_field(self.subject@) + text_field(self.descriptor.spec_token()) + text_field(
            self.lens.profile@,
        ) + step_bytes(self.lens.transforms@) + channel_bytes(self.lens.input_segments@) + field(
            self.payload@,
        ) + input_bytes(self.inputs@) + text_fields(texts(self.instructions@)) + text_field(
            self.notarized_at@,
        ) + field(self.bundle.spine.spine.spec_digest())
    }

    /// What is wrong with an input: its segment is not in the spine, its bytes
    /// are not what was committed, or the lens does not name it.
    pub open spec fn input_error(self, input: FrozenInput) -> Option<ErrorView> {
        match self.bundle.spine.spine.commitments.at(input.segment@) {
            None => Some(
                ErrorView::Crypto(
                    "frozen view: input `"@ + input.name@ + "` names segment `"@ + input.segment@
                        + "` which the bundle's spine does not carry"@,
                ),
            ),
            Some(expected) => if sha256_of(input.bytes@) != expected@ {
                Some(
                    ErrorView::Crypto(
                        "frozen view: input `"@ + input.name@ + "` does not match its segment `"@
                            + input.segment@
                            + "` commitment — the bytes are not what was committed"@,
                    ),
                )
            } else if !has_channel(self.lens.input_segments@, input.name@, input.segment@) {
                Some(
                    ErrorView::Crypto(
                        "frozen view: input `"@ + input.name@
                            + "` is not a lens input channel — unexplained inputs are refused"@,
                    ),
                )
            } else {
                None
            },
        }
    }

    /// The errors of the inputs.
    pub open spec fn input_errors(self) -> Seq<Option<ErrorView>> {
        self.inputs@.map_values(|i: FrozenInput| self.input_error(i))
    }

    /// What checking the view gives: the decisions of its journal, or the
    /// first error.
    pub open spec fn check(self, graph: GraphView) -> Result<Seq<DecisionView>, ErrorView> {
        match self.bundle.check(graph) {
            Err(e) => Err(e),
            Ok(d) => match first_error(self.input_errors()) {
                Some(e) => Err(e),
                None => Ok(d),
            },
        }
    }

    /// Freezes a projection. It must be at one moment, and say how to check it.
    pub fn freeze(
        subject: &str,
        payload: Vec<u8>,
        descriptor: ProjectionDescriptor,
        lens: LensMetadata,
        inputs: Vec<FrozenInput>,
        bundle: Dossier,
        instructions: Vec<String>,
        notarized_at: &str,
    ) -> (r: Result<FrozenView, SignatifError>)
        ensures
            match freeze_error(descriptor, instructions@.len() as int) {
                Some(f) => r matches Err(e) && e@ == f,
                None => r matches Ok(v) && v.subject@ == subject@ && v.payload == payload
                    && v.descriptor == descriptor && v.lens == lens && v.inputs == inputs
                    && v.bundle == bundle && v.instructions == instructions && v.notarized_at@
                    == notarized_at@,
            },
    {
        if descriptor.temporal != TemporalAxis::PointInTime {
            return Err(
                SignatifError::invalid(
                    "freeze refused: the descriptor is continuous — freezing is the point-in-time act (declare point-in-time)",
                ),
            );
        }
        if instructions.len() == 0 {
            return Err(
                SignatifError::invalid(
                    "freeze refused: reader instructions are required (self-describing means describing how to verify)",
                ),
            );
        }
        Ok(
            FrozenView {
                subject: subject.to_owned(),
                payload,
                descriptor,
                lens,
                inputs,
                bundle,
                instructions,
                notarized_at: notarized_at.to_owned(),
            },
        )
    }

    fn write_lens(&self, w: &mut CanonicalWriter)
        ensures
            final(w)@ == old(w)@ + step_bytes(self.lens.transforms@) + channel_bytes(
                self.lens.input_segments@,
            ),
    {
        let ghost start = w@;
        let ghost all = self.lens.transforms@;
        let mut i: usize = 0;
        assert(all.take(0) =~= Seq::<TransformStep>::empty());
        while i < self.lens.transforms.len()
            invariant
                i <= self.lens.transforms.len(),
                all == self.lens.transforms@,
                w@ =~= start + step_bytes(all.take(i as int)),
            decreases self.lens.transforms.len() - i,
        {
            assert(all.take(i + 1).drop_last() =~= all.take(i as int));
            let step = &self.lens.transforms[i];
            w.write_str(step.reference.as_str());
            let v = u64_to_le_bytes(step.version);
            w.write_bytes(v.as_slice());
            i += 1;
        }
        assert(all.take(i as int) =~= all);
        let ghost middle = w@;
        let ghost channels = self.lens.input_segments@;
        let mut j: usize = 0;
        assert(channels.take(0) =~= Seq::<(String, String)>::empty());
        while j < self.lens.input_segments.len()
            invariant
                j <= self.lens.input_segments.len(),
                channels == self.lens.input_segments@,
                w@ =~= middle + channel_bytes(channels.take(j as int)),
            decreases self.lens.input_segments.len() - j,
        {
            assert(channels.take(j + 1).drop_last() =~= channels.take(j as int));
            w.write_str(self.lens.input_segments[j].0.as_str());
            w.write_str(self.lens.input_segments[j].1.as_str());
            j += 1;
        }
        assert(channels.take(j as int) =~= channels);
    }

    fn write_inputs(&self, w: &mut CanonicalWriter)
        ensures
            final(w)@ == old(w)@ + input_bytes(self.inputs@),
    {
        let ghost start = w@;
        let ghost all = self.inputs@;
        let mut i: usize = 0;
        assert(all.take(0) =~= Seq::<FrozenInput>::empty());
        while i < self.inputs.len()
            invariant
                i <= self.inputs.len(),
                all == self.inputs@,
                w@ =~= start + input_bytes(all.take(i as int)),
            decreases self.inputs.len() - i,
        {
            assert(all.take(i + 1).drop_last() =~= all.take(i as int));
            w.write_str(self.inputs[i].name.as_str());
            let c = Segment::commit_state(self.inputs[i].bytes.as_slice());
            w.write_bytes(c.as_slice());
            i += 1;
        }
        assert(all.take(i as int) =~= all);
    }

    /// The canonical bytes.
    pub fn canonical_bytes(&self) -> (r: Vec<u8>)
        ensures
            r@ == self.canonical(),
    {
        let mut w = CanonicalWriter::new();
        let token = self.descriptor.token();
        w.write_str(self.subject.as_str());
        w.write_str(token.as_str());
        w.write_str(self.lens.profile.as_str());
        self.write_lens(&mut w);
        w.write_bytes(self.payload.as_slice());
        self.write_inputs(&mut w);
        let ghost start = w@;
        let ghost all = texts(self.instructions@);
        let mut i: usize = 0;
        assert(all.take(0) =~= Seq::<Seq<char>>::empty());
        while i < self.instructions.len()
            invariant
                i <= self.instructions.len(),
                all == texts(self.instructions@),
                w@ =~= start + text_fields(all.take(i as int)),
            decreases self.instructions.len() - i,
        {
            assert(all.take(i + 1).drop_last() =~= all.take(i as int));
            assert(all.take(i + 1).last() == self.instructions@[i as int]@);
            w.write_str(self.instructions[i].as_str());
            i += 1;
        }
        assert(all.take(i as int) =~= all);
        w.write_str(self.notarized_at.as_str());
        let digest = self.bundle.spine.spine.digest();
        w.write_bytes(digest.as_slice());
        assert(w@ =~= self.canonical());
        w.into_bytes()
    }

    /// The digest of the canonical bytes.
    pub fn digest(&self) -> (r: [u8; 32])
        ensures
            r@ == sha256_of(self.canonical()),
    {
        let bytes = self.canonical_bytes();
        sha256(bytes.as_slice()).0
    }

    fn names_channel(&self, name: &str, segment: &str) -> (r: bool)
        ensures
            r == has_channel(self.lens.input_segments@, name@, segment@),
    {
        let ghost all = self.lens.input_segments@;
        let mut i: usize = 0;
        while i < self.lens.input_segments.len()
            invariant
                i <= self.lens.input_segments.len(),
                all == self.lens.input_segments@,
                forall|k: int|
                    0 <= k < i ==> !((#[trigger] all[k]).0@ == name@ && all[k].1@ == segment@),
            decreases self.lens.input_segments.len() - i,
        {
            if same_text(self.lens.input_segments[i].0.as_str(), name) && same_text(
                self.lens.input_segments[i].1.as_str(),
                segment,
            ) {
                assert(all[i as int].0@ == name@);
                return true;
            }
            i += 1;
        }
        false
    }

    fn check_input(&self, input: &FrozenInput) -> (r: Result<(), SignatifError>)
        ensures
            match self.input_error(*input) {
                None => r is Ok,
                Some(f) => r matches Err(e) && e@ == f,
            },
    {
        let expected = match self.bundle.spine.spine.commitments.get(input.segment.as_str()) {
            None => {
                return Err(
                    SignatifError::Crypto(
                        cat5(
                            "frozen view: input `",
                            input.name.as_str(),
                            "` names segment `",
                            input.segment.as_str(),
                            "` which the bundle's spine does not carry",
                        ),
                    ),
                );
            },
            Some(c) => c,
        };
        let actual = Segment::commit_state(input.bytes.as_slice());
        if !same_array(&actual, expected) {
            return Err(
                SignatifError::Crypto(
                    cat5(
                        "frozen view: input `",
                        input.name.as_str(),
                        "` does not match its segment `",
                        input.segment.as_str(),
                        "` commitment — the bytes are not what was committed",
                    ),
                ),
            );
        }
        if !self.names_channel(input.name.as_str(), input.segment.as_str()) {
            return Err(
                SignatifError::Crypto(
                    cat3(
                        "frozen view: input `",
                        input.name.as_str(),
                        "` is not a lens input channel — unexplained inputs are refused",
                    ),
                ),
            );
        }
        Ok(())
    }

    /// Checks the view under the verifier's own graph: the dossier, and every
    /// input against the spine and the lens.
    pub fn verify(&self, graph: &TrustGraph) -> (r: Result<DossierCheck, SignatifError>)
        ensures
            match self.check(graph@) {
                Ok(d) => r matches Ok(c) && c.policies_ok == self.bundle.policies@.len()
                    && c.proofs_ok == self.bundle.proofs@.len() && c.attestations_ok
                    == self.bundle.attestations@.len() && decision_views(c.journal_decisions@)
                    == d,
                Err(f) => r matches Err(e) && e@ == f,
            },
    {
        let check = match self.bundle.verify(graph) {
            Err(e) => {
                return Err(e);
            },
            Ok(c) => c,
        };
        let ghost all = self.input_errors();
        let mut i: usize = 0;
        assert(all.take(0) =~= Seq::<Option<ErrorView>>::empty());
        while i < self.inputs.len()
            invariant
                i <= self.inputs.len(),
                all == self.input_errors(),
                first_error(all.take(i as int)) is None,
                self.bundle.check(graph@) is Ok,
            decreases self.inputs.len() - i,
        {
            proof {
                assert(all.take(i + 1).drop_last() =~= all.take(i as int));
                assert(all.take(i + 1).last() == self.input_error(self.inputs@[i as int]));
            }
            if let Err(e) = self.check_input(&self.inputs[i]) {
                proof {
                    crate::lemma_first_error(all, i + 1);
                }
                return Err(e);
            }
            i += 1;
        }
        assert(all.take(i as int) =~= all);
        Ok(check)
    }

    /// Whether a rendering of the inputs gives the payload.
    pub fn re_executes<F: Fn(&[FrozenInput]) -> Vec<u8>>(&self, render: F) -> (r: bool)
        requires
            forall|inputs: &[FrozenInput]|
                inputs@ == self.inputs@ ==> #[trigger] call_requires(render, (inputs,)),
        ensures
            exists|inputs: &[FrozenInput], out: Vec<u8>|
                inputs@ == self.inputs@ && #[trigger] call_ensures(render, (inputs,), out) && r
                    == (out@ == self.payload@),
    {
        let inputs = self.inputs.as_slice();
        let out = render(inputs);
        assert(call_ensures(render, (inputs,), out));
        same_bytes(out.as_slice(), self.payload.as_slice())
    }
}

/// A view that checks out has only inputs that the spine commits to and the
/// lens names: other bytes under the same commitment would be a collision.
pub proof fn checked_inputs_are_committed(view: FrozenView, graph: GraphView, i: int)
    requires
        view.check(graph) is Ok,
        0 <= i < view.inputs@.len(),
    ensures
        view.bundle.check(graph) is Ok,
        view.bundle.spine.spine.commitments.at(view.inputs@[i].segment@) matches Some(c) && c@
            == sha256_of(view.inputs@[i].bytes@),
        has_channel(
            view.lens.input_segments@,
            view.inputs@[i].name@,
            view.inputs@[i].segment@,
        ),
{
    crate::lemma_no_error(view.input_errors(), i);
}

/// A view checks out wherever its dossier does, if the spine commits to each of
/// its inputs and the lens names it.
pub proof fn committed_inputs_check_out(view: FrozenView, graph: GraphView)
    requires
        view.bundle.check(graph) is Ok,
        forall|i: int|
            0 <= i < view.inputs@.len() ==> (view.bundle.spine.spine.commitments.at(
                (#[trigger] view.inputs@[i]).segment@,
            ) matches Some(c) && c@ == sha256_of(view.inputs@[i].bytes@)) && has_channel(
                view.lens.input_segments@,
                view.inputs@[i].name@,
                view.inputs@[i].segment@,
            ),
    ensures
        view.check(graph) == view.bundle.check(graph),
{
    let errors = view.input_errors();
    assert forall|i: int| 0 <= i < errors.len() implies (#[trigger] errors[i]) is None by {
        assert(errors[i] == view.input_error(view.inputs@[i]));
    }
    crate::lemma_all_clear(errors);
}

} // verus!
