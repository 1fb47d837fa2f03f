//! What a survey has got to: what is asked, and what follows from the replies.

use std::path::PathBuf;

use vstd::prelude::*;

use crate::branch_map::BranchMap;
use crate::ground;
use crate::ground::{Ground, Site};
use crate::history::World;
use crate::nearness;
use crate::nearness::Kin;
use crate::notice::Message;
use crate::stack_file;
use crate::text;
use crate::tree;

verus! {

/// What the survey asks next.
#[derive(Debug)]
pub enum Question {
    /// What are branches integrated into, if not into the default branch?
    Target,
    /// What does the stack file hold, if there is one?
    StackFile,
    /// Is `branch` integrated into `target`?
    Integrated { branch: String, target: String },
    /// At which commit do the two branches part?
    MergeBase { candidate: String, branch: String },
    /// How many commits does `head` have since `base`?
    CommitCount { base: String, head: String },
    /// When were these commits made?
    Timestamps { commits: Vec<String> },
    /// Nothing: the survey is complete.
    Finished,
}

/// A reply to a `Question`.
#[derive(Debug)]
pub enum Reply {
    Target(Option<String>),
    StackFile(Option<String>),
    Integrated(bool),
    MergeBase(Option<String>),
    CommitCount(usize),
    Timestamps(BranchMap<i64>),
}

/// What a `Question` asks.
#[verifier::ext_equal]
pub enum Query {
    Target,
    StackFile,
    Integrated { branch: Seq<char>, target: Seq<char> },
    MergeBase { candidate: Seq<char>, branch: Seq<char> },
    CommitCount { base: Seq<char>, head: Seq<char> },
    Timestamps { commits: Seq<Seq<char>> },
    Finished,
}

impl View for Question {
    type V = Query;

    open spec fn view(&self) -> Query {
        match *self {
            Question::Target => Query::Target,
            Question::StackFile => Query::StackFile,
            Question::Integrated { branch, target } => Query::Integrated {
                branch: branch@,
                target: target@,
            },
            Question::MergeBase { candidate, branch } => Query::MergeBase {
                candidate: candidate@,
                branch: branch@,
            },
            Question::CommitCount { base, head } => Query::CommitCount {
                base: base@,
                head: head@,
            },
            Question::Timestamps { commits } => Query::Timestamps {
                commits: text::texts(commits@),
            },
            Question::Finished => Query::Finished,
        }
    }
}

/// Whether `reply` is a reply to `query` at all.
pub open spec fn fits(query: Query, reply: Reply) -> bool {
    match (query, reply) {
        (Query::Target, Reply::Target(_)) => true,
        (Query::StackFile, Reply::StackFile(_)) => true,
        (Query::Integrated { .. }, Reply::Integrated(_)) => true,
        (Query::MergeBase { .. }, Reply::MergeBase(_)) => true,
        (Query::CommitCount { .. }, Reply::CommitCount(_)) => true,
        (Query::Timestamps { .. }, Reply::Timestamps(_)) => true,
        _ => false,
    }
}

/// Whether `reply` is what is so in `world`.
pub open spec fn truthful(world: World, query: Query, reply: Reply) -> bool {
    match (query, reply) {
        (Query::Target, Reply::Target(target)) => tree::optional_text(target) == world.target,
        (Query::StackFile, Reply::StackFile(content)) => tree::optional_text(content)
            == world.stack_file,
        (Query::Integrated { branch, target }, Reply::Integrated(yes)) => yes == (
        world.integrated)(branch, target),
        (Query::MergeBase { candidate, branch }, Reply::MergeBase(commit)) => tree::optional_text(
            commit,
        ) == (world.merge_base)(candidate, branch),
        (Query::CommitCount { base, head }, Reply::CommitCount(count)) => count as nat == (
        world.depth)(base, head),
        (Query::Timestamps { commits }, Reply::Timestamps(stamps)) => gives_stamps(
            world,
            commits,
            stamps@,
        ),
        _ => false,
    }
}

/// Whether `stamps` say of each of `commits` when it was made, as far as that is known.
pub open spec fn gives_stamps(
    world: World,
    commits: Seq<Seq<char>>,
    stamps: Map<Seq<char>, i64>,
) -> bool {
    forall|i: int|
        0 <= i < commits.len() ==> (world.stamp)(#[trigger] commits[i]) == nearness::stamps_of(
            stamps,
        )(commits[i])
}

/// How much of a survey is left. Each part counts only where those before it are equal.
pub struct Rest {
    pub stages: nat,
    pub branches: nat,
    pub candidates: nat,
    pub parts: nat,
}

impl Rest {
    /// Whether less is left than `before`.
    pub open spec fn less_than(self, before: Rest) -> bool {
        decreases_to!(before.stages, before.branches, before.candidates, before.parts =>
            self.stages, self.branches, self.candidates, self.parts)
    }
}

/// What a survey has got to.
#[derive(Clone, Copy, Debug, PartialEq, Eq, Structural)]
pub enum Step {
    /// Ask for the target.
    Target,
    /// Ask for the stack file.
    StackFile,
    /// Ask whether branch `i` is integrated into the target.
    Trunk,
    /// Ask whether branch `i` is integrated into the parent that the stack file gives it.
    Stack,
    /// Ask where branch `i` and candidate `j` part.
    Base,
    /// Ask how many commits branch `i` has since.
    BranchDepth,
    /// Ask how many commits candidate `j` has since.
    CandidateDepth,
    /// Ask for the age of the merge bases that tie.
    Stamps,
    /// Nothing left to ask.
    Complete,
}

/// What a survey has got to.
#[verifier::ext_equal]
pub struct Inquiry {
    /// The default branch.
    pub root: Seq<char>,
    /// The branches with a worktree.
    pub sites: Seq<Site>,
    /// What branches are integrated into.
    pub target: Seq<char>,
    /// What the stack file says.
    pub stated: Map<Seq<char>, Seq<char>>,
    /// The branches found to be integrated.
    pub integrated: Map<Seq<char>, PathBuf>,
    /// The parents found.
    pub parents: Map<Seq<char>, Seq<char>>,
    pub step: Step,
    /// Which branch is at hand.
    pub i: int,
    /// Which candidate for its parent is.
    pub j: int,
    /// The relatives found for the branch at hand.
    pub kin: Seq<Kin>,
    /// The merge base of the branch and the candidate.
    pub base: Seq<char>,
    /// How many commits the branch has since.
    pub depth: nat,
}

impl Inquiry {
    /// A survey of `sites` begins.
    pub open spec fn start(root: Seq<char>, sites: Seq<Site>) -> Inquiry {
        Inquiry {
            root,
            sites,
            target: seq![],
            stated: Map::empty(),
            integrated: Map::empty(),
            parents: Map::empty(),
            step: Step::Target,
            i: 0,
            j: 0,
            kin: seq![],
            base: seq![],
            depth: 0,
        }
    }

    /// What is known of the ground.
    pub open spec fn ground(self) -> Ground {
        Ground { root: self.root, sites: self.sites, stated: self.stated, target: self.target }
    }

    /// The branch at hand.
    pub open spec fn branch(self) -> Seq<char> {
        self.sites[self.i].branch
    }

    /// The candidate at hand.
    pub open spec fn candidate(self) -> Seq<char> {
        self.sites[self.j].branch
    }

    /// The nearest of the relatives found.
    pub open spec fn ties(self) -> Seq<Kin> {
        nearness::nearest(self.kin)
    }

    /// Whether the parent of the branch at hand has to be inferred.
    pub open spec fn inferring(self) -> bool {
        &&& self.i < self.sites.len()
        &&& self.branch() != self.root
        &&& !self.integrated.contains_key(self.branch())
        &&& !self.ground().has_stack()
    }

    /// Whether the positions are in range and fit the step.
    pub open spec fn sound(self) -> bool {
        &&& ground::has_site(self.sites, self.root)
        &&& 0 <= self.i <= self.sites.len()
        &&& 0 <= self.j <= self.sites.len()
        &&& self.step is Base && self.j > 0 ==> self.inferring()
        &&& self.step is BranchDepth || self.step is CandidateDepth ==> self.inferring() && self.j
            < self.sites.len() && self.candidate() != self.branch()
        &&& self.step is Stamps ==> self.inferring() && self.ties().len() > 1
    }

    /// Whether there is a question to ask, or nothing is left.
    pub open spec fn ready(self) -> bool {
        match self.step {
            Step::Trunk => self.i < self.sites.len() && self.branch() != self.root,
            Step::Stack => self.i < self.sites.len() && self.branch() != self.root
                && !self.integrated.contains_key(self.branch()) && self.stated.contains_key(
                self.branch(),
            ) && self.stated[self.branch()] != self.target,
            Step::Base => self.inferring() && self.j < self.sites.len() && self.candidate()
                != self.branch(),
            _ => true,
        }
    }

    /// Whether the survey can get to this.
    pub open spec fn valid(self) -> bool {
        self.sound() && self.ready()
    }

    /// How much is left.
    pub open spec fn rest(self) -> Rest {
        Rest {
            stages: match self.step {
                Step::Target => 5,
                Step::StackFile => 4,
                Step::Trunk => 3,
                Step::Stack => 2,
                Step::Complete => 0,
                _ => 1,
            },
            branches: (self.sites.len() - self.i) as nat,
            candidates: (self.sites.len() - self.j) as nat,
            parts: match self.step {
                Step::Base => 3,
                Step::BranchDepth => 2,
                Step::CandidateDepth => 1,
                _ => 0,
            },
        }
    }

    /// What is asked next.
    pub open spec fn asked(self) -> Query {
        match self.step {
            Step::Target => Query::Target,
            Step::StackFile => Query::StackFile,
            Step::Trunk => Query::Integrated { branch: self.branch(), target: self.target },
            Step::Stack => Query::Integrated {
                branch: self.branch(),
                target: self.stated[self.branch()],
            },
            Step::Base => Query::MergeBase { candidate: self.candidate(), branch: self.branch() },
            Step::BranchDepth => Query::CommitCount { base: self.base, head: self.branch() },
            Step::CandidateDepth => Query::CommitCount { base: self.base, head: self.candidate() },
            Step::Stamps => Query::Timestamps { commits: merge_bases(self.ties()) },
            Step::Complete => Query::Finished,
        }
    }

    /// The next branch is taken up.
    pub open spec fn next_branch(self) -> Inquiry {
        Inquiry { step: Step::Base, i: self.i + 1, j: 0, kin: seq![], ..self }
    }

    /// The parent of the branch at hand is found.
    pub open spec fn with_parent(self, parent: Seq<char>) -> Inquiry {
        Inquiry { parents: self.parents.insert(self.branch(), parent), ..self }
    }

    /// What follows without a reply. First all branches are held against the target, then, if
    /// there is a stack file, those that remain against the parent that it gives them. Then each
    /// branch that remains gets a parent: from the stack file, if there is one, else from its
    /// relatives.
    pub open spec fn advanced(self) -> Option<Inquiry> {
        let n = self.sites.len();
        match self.step {
            Step::Trunk => if self.i >= n {
                Some(Inquiry { step: Step::Stack, i: 0, ..self })
            } else if self.branch() == self.root {
                Some(Inquiry { i: self.i + 1, ..self })
            } else {
                None
            },
            Step::Stack => if self.i >= n {
                Some(Inquiry { step: Step::Base, i: 0, j: 0, ..self })
            } else if self.ready() {
                None
            } else {
                Some(Inquiry { i: self.i + 1, ..self })
            },
            Step::Base => if self.i >= n {
                Some(Inquiry { step: Step::Complete, ..self })
            } else if self.branch() == self.root || self.integrated.contains_key(self.branch()) {
                Some(self.next_branch())
            } else if self.ground().has_stack() {
                Some(self.with_parent(self.ground().above(self.branch())).next_branch())
            } else if self.j < n {
                if self.candidate() == self.branch() {
                    Some(Inquiry { j: self.j + 1, ..self })
                } else {
                    None
                }
            } else if self.ties().len() > 1 {
                Some(Inquiry { step: Step::Stamps, ..self })
            } else if self.ties().len() == 1 {
                Some(self.with_parent(self.ties()[0].name).next_branch())
            } else {
                Some(self.next_branch())
            },
            _ => None,
        }
    }

    /// What the survey gets to without a reply.
    pub open spec fn settled(self) -> Inquiry
        decreases
            self.rest().stages,
            self.rest().branches,
            self.rest().candidates,
            self.rest().parts,
    {
        if 0 <= self.i <= self.sites.len() && 0 <= self.j <= self.sites.len() {
            match self.advanced() {
                Some(next) => next.settled(),
                None => self,
            }
        } else {
            self
        }
    }

    /// What is known with `reply`, before anything follows from it.
    pub open spec fn told(self, reply: Reply) -> Inquiry {
        match reply {
            Reply::Target(target) => Inquiry {
                target: match target {
                    Some(found) => found@,
                    None => self.root,
                },
                step: Step::StackFile,
                ..self
            },
            Reply::StackFile(content) => Inquiry {
                stated: match content {
                    Some(found) => stack_file::stated_parents(found@, self.root),
                    None => Map::empty(),
                },
                step: Step::Trunk,
                ..self
            },
            Reply::Integrated(yes) => Inquiry {
                integrated: if yes {
                    self.integrated.insert(self.branch(), self.sites[self.i].path)
                } else {
                    self.integrated
                },
                i: self.i + 1,
                ..self
            },
            Reply::MergeBase(commit) => match commit {
                Some(base) => Inquiry { base: base@, step: Step::BranchDepth, ..self },
                None => Inquiry { j: self.j + 1, ..self },
            },
            Reply::CommitCount(count) => if self.step is CandidateDepth {
                Inquiry {
                    kin: self.kin.push(
                        Kin {
                            name: self.candidate(),
                            merge_base: self.base,
                            branch_depth: self.depth,
                            candidate_depth: count as nat,
                        },
                    ),
                    step: Step::Base,
                    j: self.j + 1,
                    ..self
                }
            } else if count == 0 {
                Inquiry { step: Step::Base, j: self.j + 1, ..self }
            } else {
                Inquiry { step: Step::CandidateDepth, depth: count as nat, ..self }
            },
            Reply::Timestamps(stamps) => self.with_parent(
                self.ties()[nearness::tie_break(self.ties(), nearness::stamps_of(stamps@))].name,
            ).next_branch(),
        }
    }

    /// What the survey gets to with `reply`.
    pub open spec fn after(self, reply: Reply) -> Inquiry {
        self.told(reply).settled()
    }

    /// What is said of `reply`: a tie between relatives is reported.
    pub open spec fn warning(self, reply: Reply) -> Option<Message> {
        match reply {
            Reply::Timestamps(stamps) => Some(
                Message::equidistant(
                    self.branch(),
                    nearness::kin_names(self.ties()),
                    self.ties()[nearness::tie_break(
                        self.ties(),
                        nearness::stamps_of(stamps@),
                    )].name,
                ),
            ),
            _ => None,
        }
    }

    /// Whether what is known so far is so in `world`.
    pub open spec fn agrees(self, world: World) -> bool {
        let ground = world.ground(self.root, self.sites);
        let n = self.sites.len() as int;
        &&& self.step is Target || self.target == ground.target
        &&& self.step is Target || self.step is StackFile || self.stated == ground.stated
        &&& match self.step {
            Step::Target | Step::StackFile => self.i == 0 && self.integrated == Map::<
                Seq<char>,
                PathBuf,
            >::empty(),
            Step::Trunk => self.integrated == ground.merged_into_target(world, self.i),
            Step::Stack => self.integrated == ground.merged(world, self.i),
            _ => self.integrated == ground.integrated(world),
        }
        &&& match self.step {
            Step::Target | Step::StackFile | Step::Trunk | Step::Stack => self.j == 0
                && self.kin.len() == 0 && self.parents == Map::<Seq<char>, Seq<char>>::empty(),
            Step::Complete => self.parents == ground.parents(world, n),
            _ => self.parents == ground.parents(world, self.i) && self.kin == ground.kin(
                world,
                self.branch(),
                self.j,
            ),
        }
        &&& self.step is BranchDepth || self.step is CandidateDepth ==> (world.merge_base)(
            self.candidate(),
            self.branch(),
        ) == Some(self.base)
        &&& self.step is CandidateDepth ==> self.depth != 0 && self.depth == (world.depth)(
            self.base,
            self.branch(),
        )
        &&& self.step is Stamps ==> self.j == n
    }
}

/// The merge bases of `kin`.
pub open spec fn merge_bases(kin: Seq<Kin>) -> Seq<Seq<char>> {
    Seq::new(kin.len(), |i: int| kin[i].merge_base)
}

/// What follows without a reply keeps the positions in range and leaves less to ask.
pub proof fn lemma_advanced(inquiry: Inquiry, next: Inquiry)
    requires
        inquiry.sound(),
        inquiry.advanced() == Some(next),
    ensures
        next.sound(),
        next.root == inquiry.root,
        next.sites == inquiry.sites,
        next.rest().less_than(inquiry.rest()),
{
}

proof fn lemma_advanced_agrees(inquiry: Inquiry, next: Inquiry, world: World)
    requires
        inquiry.sound(),
        inquiry.advanced() == Some(next),
        inquiry.agrees(world),
    ensures
        next.agrees(world),
{
    let ground = world.ground(inquiry.root, inquiry.sites);
    match inquiry.step {
        Step::Stack => {
            if inquiry.i >= inquiry.sites.len() {
                assert(next.kin =~= ground.kin(world, next.branch(), 0));
            }
        },
        Step::Base => {
            if next.step is Base && next.i == inquiry.i + 1 {
                assert(next.kin =~= ground.kin(world, next.branch(), 0));
                assert(next.parents == ground.parents(world, next.i));
            }
        },
        _ => {},
    }
}

proof fn lemma_settled(inquiry: Inquiry)
    requires
        inquiry.sound(),
    ensures
        inquiry.settled().valid(),
        inquiry.settled().root == inquiry.root,
        inquiry.settled().sites == inquiry.sites,
        inquiry.settled().rest() == inquiry.rest() || inquiry.settled().rest().less_than(
            inquiry.rest(),
        ),
        forall|world: World| inquiry.agrees(world) ==> inquiry.settled().agrees(world),
    decreases
        inquiry.rest().stages,
        inquiry.rest().branches,
        inquiry.rest().candidates,
        inquiry.rest().parts,
{
    match inquiry.advanced() {
        Some(next) => {
            lemma_advanced(inquiry, next);
            lemma_settled(next);
            assert forall|world: World| inquiry.agrees(world) implies inquiry.settled().agrees(
                world,
            ) by {
                lemma_advanced_agrees(inquiry, next, world);
            }
        },
        None => {},
    }
}

/// A reply keeps the positions in range and leaves less to ask.
pub proof fn lemma_told(inquiry: Inquiry, reply: Reply)
    requires
        inquiry.valid(),
        fits(inquiry.asked(), reply),
    ensures
        inquiry.told(reply).sound(),
        inquiry.told(reply).root == inquiry.root,
        inquiry.told(reply).sites == inquiry.sites,
        inquiry.told(reply).rest().less_than(inquiry.rest()),
{
}

proof fn lemma_told_agrees(inquiry: Inquiry, reply: Reply, world: World)
    requires
        inquiry.valid(),
        fits(inquiry.asked(), reply),
        inquiry.agrees(world),
        truthful(world, inquiry.asked(), reply),
    ensures
        inquiry.told(reply).agrees(world),
{
    let ground = world.ground(inquiry.root, inquiry.sites);
    let told = inquiry.told(reply);
    match reply {
        Reply::Timestamps(stamps) => {
            let kin = inquiry.ties();
            let commits = merge_bases(kin);
            assert(gives_stamps(world, commits, stamps@));
            assert forall|i: int| 0 <= i < kin.len() implies nearness::stamps_of(stamps@)(
                (#[trigger] kin[i]).merge_base,
            ) == (world.stamp)(kin[i].merge_base) by {
                assert(commits[i] == kin[i].merge_base);
            }
            nearness::lemma_tie_break_same(kin, nearness::stamps_of(stamps@), world.stamp);
            assert(told.parents == ground.parents(world, told.i));
            assert(told.kin =~= ground.kin(world, told.branch(), 0));
        },
        _ => {},
    }
}

/// A survey of worktrees among which the default branch has one begins in a valid state, and
/// nothing that it holds is untrue of any repository.
pub proof fn law_survey_starts(root: Seq<char>, sites: Seq<Site>, world: World)
    requires
        ground::has_site(sites, root),
    ensures
        Inquiry::start(root, sites).valid(),
        Inquiry::start(root, sites).agrees(world),
{
}

/// Every reply takes a valid survey to a valid survey of the same worktrees with less left to ask.
pub proof fn law_survey_goes_on(inquiry: Inquiry, reply: Reply)
    requires
        inquiry.valid(),
        fits(inquiry.asked(), reply),
    ensures
        inquiry.after(reply).valid(),
        inquiry.after(reply).root == inquiry.root,
        inquiry.after(reply).sites == inquiry.sites,
        inquiry.after(reply).rest().less_than(inquiry.rest()),
{
    lemma_told(inquiry, reply);
    lemma_settled(inquiry.told(reply));
}

/// As long as the replies are true of a repository, all that the survey holds is.
pub proof fn law_survey_is_true(inquiry: Inquiry, reply: Reply, world: World)
    requires
        inquiry.valid(),
        fits(inquiry.asked(), reply),
        inquiry.agrees(world),
        truthful(world, inquiry.asked(), reply),
    ensures
        inquiry.after(reply).agrees(world),
{
    lemma_told(inquiry, reply);
    lemma_told_agrees(inquiry, reply, world);
    lemma_settled(inquiry.told(reply));
}

/// What a survey of `sites` gets to with `replies`.
pub open spec fn surveyed(root: Seq<char>, sites: Seq<Site>, replies: Seq<Reply>) -> Inquiry
    decreases replies.len(),
{
    if replies.len() == 0 {
        Inquiry::start(root, sites)
    } else {
        surveyed(root, sites, replies.drop_last()).after(replies.last())
    }
}

/// Whether each of `replies` is a reply to what was asked, and is so in `world`.
pub open spec fn honest(
    root: Seq<char>,
    sites: Seq<Site>,
    replies: Seq<Reply>,
    world: World,
) -> bool
    decreases replies.len(),
{
    replies.len() > 0 ==> honest(root, sites, replies.drop_last(), world) && fits(
        surveyed(root, sites, replies.drop_last()).asked(),
        replies.last(),
    ) && truthful(
        world,
        surveyed(root, sites, replies.drop_last()).asked(),
        replies.last(),
    )
}

/// A survey that is told the truth about a repository knows the truth about it at every point.
pub proof fn law_survey_of_repository(
    root: Seq<char>,
    sites: Seq<Site>,
    replies: Seq<Reply>,
    world: World,
)
    requires
        ground::has_site(sites, root),
        honest(root, sites, replies, world),
    ensures
        surveyed(root, sites, replies).valid(),
        surveyed(root, sites, replies).root == root,
        surveyed(root, sites, replies).sites == sites,
        surveyed(root, sites, replies).agrees(world),
    decreases replies.len(),
{
    if replies.len() == 0 {
        law_survey_starts(root, sites, world);
    } else {
        let front = replies.drop_last();
        law_survey_of_repository(root, sites, front, world);
        law_survey_goes_on(surveyed(root, sites, front), replies.last());
        law_survey_is_true(surveyed(root, sites, front), replies.last(), world);
    }
}

/// When timestamps are asked for, those who tie are the nearest of the relatives that the branch
/// at hand has in the repository.
pub proof fn law_ties(inquiry: Inquiry, world: World)
    requires
        inquiry.valid(),
        inquiry.agrees(world),
        inquiry.asked() is Timestamps,
    ensures
        inquiry.ties().len() > 1,
        inquiry.ties() == nearness::nearest(
            world.ground(inquiry.root, inquiry.sites).kin(
                world,
                inquiry.branch(),
                inquiry.sites.len() as int,
            ),
        ),
{
}

/// What is asked, and of what. Whether a branch is integrated is asked only of branches other than
/// the default one, and only with respect to the target or to the parent that the stack file
/// gives them. Nothing is asked of merge bases where the stack file says anything; else only of
/// pairs of a candidate and a branch that is neither the default one nor integrated.
pub proof fn law_questions(inquiry: Inquiry, world: World)
    requires
        inquiry.valid(),
        inquiry.agrees(world),
    ensures
        ({
            let ground = world.ground(inquiry.root, inquiry.sites);
            match inquiry.asked() {
                Query::Integrated { branch, target } => {
                    &&& ground::has_site(ground.sites, branch)
                    &&& branch != ground.root
                    &&& target == ground.target || (ground.stated.contains_key(branch) && target
                        == ground.stated[branch])
                },
                Query::MergeBase { candidate, branch } => {
                    &&& !ground.has_stack()
                    &&& ground::has_site(ground.sites, candidate)
                    &&& ground::has_site(ground.sites, branch)
                    &&& candidate != branch
                    &&& branch != ground.root
                    &&& !ground.integrated(world).contains_key(branch)
                },
                Query::CommitCount { base, head } => {
                    &&& !ground.has_stack()
                    &&& ground::has_site(ground.sites, head)
                    &&& exists|candidate: Seq<char>, branch: Seq<char>|
                        (#[trigger] (world.merge_base)(candidate, branch)) == Some(base) && (head
                            == candidate || head == branch)
                },
                Query::Timestamps { .. } => !ground.has_stack(),
                _ => true,
            }
        }),
{
    let sites = inquiry.sites;
    if inquiry.i < sites.len() {
        assert(sites[inquiry.i].branch == inquiry.branch());
    }
    if inquiry.j < sites.len() {
        assert(sites[inquiry.j].branch == inquiry.candidate());
    }
}

} // verus!
