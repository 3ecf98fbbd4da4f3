//! What is asked of the engine, what it proposes, and who proposes.
//!
//! A provider does not ask anyone itself. It says what it needs to know, is
//! handed the replies, and proposes.
use smallvec::SmallVec;
use vstd::prelude::*;
use crate::order::{Weigh, Weighted};
use crate::ranking::{RankingFeatures, Recency, Share};

pub mod cd_assist;
pub mod cwd_history;
pub mod history;
pub mod path;

verus! {

/// What a suggestion completes.
#[derive(Debug, Clone, Copy, PartialEq, Eq, Structural)]
pub enum SuggestionKind {
    Command,
    Path,
    Argument,
}

/// A request for suggestions.
#[derive(Debug, Clone)]
pub struct SuggestionRequest {
    pub request_id: u64,
    pub buffer: String,
    pub cursor: usize,
    pub cwd: String,
    pub session_id: String,
    pub last_command: Option<String>,
    pub timestamp_ms: u64,
}

/// A score: a single-precision number, as its IEEE 754 bits and as the literal
/// that is written for it.
#[derive(Debug, Clone, PartialEq, Eq)]
pub struct Score {
    pub bits: u32,
    pub text: String,
}

/// The sign bit of a single-precision number.
pub const SIGN_BIT: u32 = 0x8000_0000;

/// The bits of infinity: with greater ones, but for the sign, there is no
/// number.
pub const INFINITY_BITS: u32 = 0x7F80_0000;

impl Score {
    /// Where the score stands among all: one is greater than another exactly
    /// where it stands higher, and both zeros stand at 0. Bits that are no
    /// number stand beyond the infinities.
    pub open spec fn level(self) -> int {
        if self.bits < SIGN_BIT {
            self.bits as int
        } else {
            SIGN_BIT - self.bits
        }
    }

    /// The bits stand for a number.
    pub open spec fn is_number(self) -> bool {
        -INFINITY_BITS <= self.level() <= INFINITY_BITS
    }

    /// Where the score stands among all.
    pub(crate) fn standing(&self) -> (r: i64)
        ensures
            r == self.level(),
    {
        if self.bits < SIGN_BIT {
            self.bits as i64
        } else {
            SIGN_BIT as i64 - self.bits as i64
        }
    }

    /// Whether the score is less than the number with these bits, which is not
    /// negative. What is no number is not less than any.
    pub(crate) fn is_below(&self, bits: u32) -> (r: bool)
        requires
            bits <= INFINITY_BITS,
        ensures
            r == (self.is_number() && self.level() < bits),
    {
        let level: i64 = self.standing();
        level >= -(INFINITY_BITS as i64) && level < bits as i64
    }
}

/// A suggestion with its score.
#[derive(Debug, Clone, PartialEq, Eq)]
pub struct SuggestionCandidate {
    pub text: String,
    pub source: String,
    pub score: Score,
    pub kind: SuggestionKind,
}

impl Weighted for SuggestionCandidate {
    open spec fn weight(self) -> int {
        self.score.level()
    }
}

impl Weigh for SuggestionCandidate {
    fn weigh(&self) -> (w: i128) {
        self.score.standing() as i128
    }
}

/// A suggestion with the features from which its score is computed.
#[derive(Debug, Clone, PartialEq, Eq)]
pub struct Proposal {
    pub text: String,
    pub source: String,
    pub kind: SuggestionKind,
    pub features: RankingFeatures,
}

/// The contents of a `Proposal`.
pub struct ProposalView {
    pub text: Seq<char>,
    pub source: Seq<char>,
    pub kind: SuggestionKind,
    pub features: RankingFeatures,
}

impl View for Proposal {
    type V = ProposalView;

    open spec fn view(&self) -> ProposalView {
        ProposalView {
            text: self.text@,
            source: self.source@,
            kind: self.kind,
            features: self.features,
        }
    }
}

/// The contents of a list of proposals.
pub open spec fn proposal_views(s: Seq<Proposal>) -> Seq<ProposalView> {
    s.map_values(|p: Proposal| p@)
}

/// The proposals of one provider: a `SmallVec` of the smallvec crate, which
/// holds up to four items in place.
#[verifier::external_body]
pub struct Proposals {
    items: SmallVec<[Proposal; 4]>,
}

/// The items of a list of proposals, in order.
pub uninterp spec fn items_of(p: Proposals) -> Seq<Proposal>;

impl View for Proposals {
    type V = Seq<ProposalView>;

    open spec fn view(&self) -> Seq<ProposalView> {
        proposal_views(items_of(*self))
    }
}

impl Proposals {
    /// `SmallVec::new`: a list without items.
    #[verifier::external_body]
    pub(crate) fn new() -> (r: Proposals)
        ensures
            items_of(r) == Seq::<Proposal>::empty(),
    {
        Proposals { items: SmallVec::new() }
    }

    /// `SmallVec::push`: the item goes to the end, and nothing else changes.
    #[verifier::external_body]
    pub(crate) fn push(&mut self, item: Proposal)
        ensures
            items_of(*final(self)) == items_of(*old(self)).push(item),
    {
        self.items.push(item);
    }

    /// `SmallVec::into_vec`: the same items in the same order.
    #[verifier::external_body]
    fn unpacked(self) -> (r: Vec<Proposal>)
        ensures
            r@ == items_of(self),
    {
        self.items.into_vec()
    }

    /// Adds a proposal at the end.
    pub(crate) fn propose(
        &mut self,
        text: String,
        source: &str,
        kind: SuggestionKind,
        features: RankingFeatures,
    )
        ensures
            final(self)@ == old(self)@.push(
                ProposalView { text: text@, source: source@, kind, features },
            ),
    {
        let item = Proposal { text, source: crate::text::copy_str(source), kind, features };
        let ghost before = items_of(*self);
        self.push(item);
        assert(proposal_views(before.push(item)) =~= proposal_views(before).push(item@));
    }

    /// The proposals in order.
    pub fn into_list(self) -> (r: Vec<Proposal>)
        ensures
            proposal_views(r@) == self@,
    {
        self.unpacked()
    }
}

/// The features of a suggestion for which nothing speaks.
pub open spec fn no_features() -> RankingFeatures {
    RankingFeatures {
        prefix_exactness: Share::hundredths(0),
        cwd_similarity: Share::hundredths(0),
        path_exists: Share::hundredths(0),
        recency: Recency::Unknown,
        frequency: Share::hundredths(0),
        last_command_transition: Share::hundredths(0),
        success_bonus: Share::hundredths(0),
    }
}

/// A provider of suggestions.
pub trait InlineProvider {
    /// What the provider is told of the world outside.
    type Reply;

    /// The name under which the provider is known.
    spec fn known_as(&self) -> Seq<char>;

    /// The provider has something to say about requests of this kind.
    spec fn handles(&self, req: SuggestionRequest) -> bool;

    /// The reply can be worked with.
    spec fn answerable(&self, reply: Self::Reply) -> bool;

    /// What the provider proposes.
    spec fn proposed(&self, req: SuggestionRequest, reply: Self::Reply) -> Seq<ProposalView>;

    /// The name of the provider.
    fn name(&self) -> (r: &'static str)
        ensures
            r@ == self.known_as(),
    ;

    /// Whether the provider is asked for this request.
    fn supports(&self, req: &SuggestionRequest) -> (r: bool)
        ensures
            r == self.handles(*req),
    ;

    /// The proposals for a request, given the replies.
    fn suggest(&self, req: &SuggestionRequest, reply: Self::Reply) -> (r: Proposals)
        requires
            self.answerable(reply),
        ensures
            r@ == self.proposed(*req, reply),
    ;
}

/// Scores stand as the numbers do: without a sign in the order of their bits,
/// with one below zero in the opposite order, and both zeros in one place.
pub proof fn law_scores_are_ordered(a: Score, b: Score)
    ensures
        a.bits < 0x8000_0000 && b.bits < 0x8000_0000 ==> (a.level() < b.level() <==> a.bits
            < b.bits),
        a.bits >= 0x8000_0000 && b.bits >= 0x8000_0000 ==> (a.level() < b.level() <==> a.bits
            > b.bits),
        a.bits > 0x8000_0000 && b.bits < 0x8000_0000 ==> a.level() < b.level(),
        a.bits == 0x8000_0000 && b.bits == 0 ==> a.level() == b.level(),
        a.is_number() <==> a.bits <= 0x7F80_0000 || 0x8000_0000 <= a.bits <= 0xFF80_0000,
{
}

} // verus!
