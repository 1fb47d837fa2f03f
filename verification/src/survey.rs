//! The survey of the repository: it asks questions, and builds the tree from the replies.

use std::path::PathBuf;

use vstd::prelude::*;

use crate::assembly;
use crate::branch_map;
use crate::branch_map::BranchMap;
use crate::failure;
use crate::failure::Failure;
use crate::ground;
use crate::ground::{Checkout, Worktree};
use crate::history::World;
use crate::inquiry;
use crate::inquiry::{Inquiry, Question, Reply, Step};
use crate::nearness;
use crate::nearness::Relative;
use crate::notice::Notice;
use crate::stack_file;
use crate::text;
use crate::tree::DependencyTree;

verus! {

/// A survey of the repository.
#[derive(Debug)]
pub struct Survey {
    root: String,
    checkouts: Vec<Checkout>,
    target: String,
    stated: BranchMap<String>,
    integrated: BranchMap<PathBuf>,
    parents: BranchMap<String>,
    step: Step,
    i: usize,
    j: usize,
    relatives: Vec<Relative>,
    base: String,
    depth: usize,
}

impl View for Survey {
    type V = Inquiry;

    closed spec fn view(&self) -> Inquiry {
        Inquiry {
            root: self.root@,
            sites: ground::sites(self.checkouts@),
            target: self.target@,
            stated: branch_map::text_map(self.stated@),
            integrated: self.integrated@,
            parents: branch_map::text_map(self.parents@),
            step: self.step,
            i: self.i as int,
            j: self.j as int,
            kin: nearness::kindred(self.relatives@),
            base: self.base@,
            depth: self.depth as nat,
        }
    }
}

proof fn lemma_text_map_empty(map: Map<Seq<char>, String>)
    ensures
        (branch_map::text_map(map) == Map::<Seq<char>, Seq<char>>::empty()) == (map == Map::<
            Seq<char>,
            String,
        >::empty()),
{
    let texts = branch_map::text_map(map);
    if texts == Map::<Seq<char>, Seq<char>>::empty() {
        assert forall|name: Seq<char>| !map.contains_key(name) by {
            assert(texts.contains_key(name) == map.contains_key(name));
        }
        assert(map =~= Map::empty());
    } else if map == Map::<Seq<char>, String>::empty() {
        assert(texts =~= Map::empty());
    }
}

fn list_merge_bases(relatives: &Vec<Relative>) -> (commits: Vec<String>)
    ensures
        text::texts(commits@) == inquiry::merge_bases(nearness::kindred(relatives@)),
{
    let mut commits: Vec<String> = Vec::new();
    let mut i: usize = 0;
    while i < relatives.len()
        invariant
            i <= relatives@.len(),
            text::texts(commits@) == inquiry::merge_bases(nearness::kindred(relatives@)).take(
                i as int,
            ),
        decreases relatives@.len() - i,
    {
        let ghost before = text::texts(commits@);
        commits.push(relatives[i].merge_base.clone());
        assert(text::texts(commits@) == before.push(relatives@[i as int].merge_base@));
        i = i + 1;
    }
    commits
}

fn list_names(relatives: &Vec<Relative>) -> (names: Vec<String>)
    ensures
        text::texts(names@) == nearness::kin_names(nearness::kindred(relatives@)),
{
    let mut names: Vec<String> = Vec::new();
    let mut i: usize = 0;
    while i < relatives.len()
        invariant
            i <= relatives@.len(),
            text::texts(names@) == nearness::kin_names(nearness::kindred(relatives@)).take(
                i as int,
            ),
        decreases relatives@.len() - i,
    {
        let ghost before = text::texts(names@);
        names.push(relatives[i].name.clone());
        assert(text::texts(names@) == before.push(relatives@[i as int].name@));
        i = i + 1;
    }
    names
}

impl Survey {
    /// A survey of `worktrees`, where `root` is the default branch.
    pub fn new(root: String, worktrees: &Vec<Worktree>) -> (started: Result<Survey, Failure>)
        ensures
            ({
                let sites = ground::worktree_sites(worktrees@, worktrees@.len() as int);
                match started {
                    Ok(survey) => ground::has_site(sites, root@) && survey@ == Inquiry::start(
                        root@,
                        sites,
                    ) && survey@.valid(),
                    Err(failure) => !ground::has_site(sites, root@) && failure@
                        == failure::no_root_worktree(root@),
                }
            }),
    {
        match ground::collect_branches(worktrees, root.as_str()) {
            Ok(checkouts) => {
                let survey = Survey {
                    root,
                    checkouts,
                    target: String::new(),
                    stated: BranchMap::new(),
                    integrated: BranchMap::new(),
                    parents: BranchMap::new(),
                    step: Step::Target,
                    i: 0,
                    j: 0,
                    relatives: Vec::new(),
                    base: String::new(),
                    depth: 0,
                };
                proof {
                    assert(survey@.stated =~= Map::empty());
                    assert(survey@.parents =~= Map::empty());
                    assert(survey@ =~= Inquiry::start(survey.root@, survey@.sites));
                }
                Ok(survey)
            },
            Err(failure) => Err(failure),
        }
    }

    /// What is asked next.
    pub fn question(&self) -> (question: Question)
        requires
            self@.valid(),
        ensures
            question@ == self@.asked(),
    {
        match self.step {
            Step::Target => Question::Target,
            Step::StackFile => Question::StackFile,
            Step::Trunk => Question::Integrated {
                branch: self.checkouts[self.i].branch.clone(),
                target: self.target.clone(),
            },
            Step::Stack => {
                let branch = self.checkouts[self.i].branch.clone();
                let target = match self.stated.get(branch.as_str()) {
                    Some(parent) => parent.clone(),
                    None => self.target.clone(),
                };
                Question::Integrated { branch, target }
            },
            Step::Base => Question::MergeBase {
                candidate: self.checkouts[self.j].branch.clone(),
                branch: self.checkouts[self.i].branch.clone(),
            },
            Step::BranchDepth => Question::CommitCount {
                base: self.base.clone(),
                head: self.checkouts[self.i].branch.clone(),
            },
            Step::CandidateDepth => Question::CommitCount {
                base: self.base.clone(),
                head: self.checkouts[self.j].branch.clone(),
            },
            Step::Stamps => {
                let ties = nearness::nearest_relatives(&self.relatives);
                Question::Timestamps { commits: list_merge_bases(&ties) }
            },
            Step::Complete => Question::Finished,
        }
    }

    /// Turns to the next branch.
    fn next_branch(&mut self)
        requires
            old(self)@.i < usize::MAX,
        ensures
            final(self)@ == old(self)@.next_branch(),
    {
        self.step = Step::Base;
        self.i = self.i + 1;
        self.j = 0;
        self.relatives = Vec::new();
        assert(self@.kin =~= seq![]);
    }

    /// Notes the parent of the branch at hand.
    fn note_parent(&mut self, parent: String)
        requires
            0 <= old(self)@.i < old(self)@.sites.len(),
        ensures
            final(self)@ == old(self)@.with_parent(parent@),
    {
        let branch = self.checkouts[self.i].branch.clone();
        assert(self@.branch() == branch@);
        self.parents.insert(branch, parent);
        assert(self@.parents =~= old(self)@.parents.insert(branch@, parent@));
    }

    fn advance_trunk(&mut self) -> (moved: bool)
        requires
            old(self)@.sound(),
            old(self)@.step is Trunk,
        ensures
            match old(self)@.advanced() {
                Some(next) => moved && final(self)@ == next,
                None => !moved && final(self)@ == old(self)@,
            },
    {
        if self.i >= self.checkouts.len() {
            self.step = Step::Stack;
            self.i = 0;
            return true;
        }
        assert(self@.branch() == self.checkouts@[self.i as int].branch@);
        if text::same(self.checkouts[self.i].branch.as_str(), self.root.as_str()) {
            self.i = self.i + 1;
            return true;
        }
        false
    }

    fn advance_stack(&mut self) -> (moved: bool)
        requires
            old(self)@.sound(),
            old(self)@.step is Stack,
        ensures
            match old(self)@.advanced() {
                Some(next) => moved && final(self)@ == next,
                None => !moved && final(self)@ == old(self)@,
            },
    {
        if self.i >= self.checkouts.len() {
            self.step = Step::Base;
            self.i = 0;
            self.j = 0;
            return true;
        }
        let branch = self.checkouts[self.i].branch.as_str();
        assert(self@.branch() == branch@);
        let asks = !text::same(branch, self.root.as_str()) && !self.integrated.contains_key(branch)
            && match self.stated.get(branch) {
            Some(parent) => !text::same(parent.as_str(), self.target.as_str()),
            None => false,
        };
        if asks {
            return false;
        }
        self.i = self.i + 1;
        true
    }

    fn advance_base(&mut self) -> (moved: bool)
        requires
            old(self)@.sound(),
            old(self)@.step is Base,
        ensures
            match old(self)@.advanced() {
                Some(next) => moved && final(self)@ == next,
                None => !moved && final(self)@ == old(self)@,
            },
    {
        if self.i >= self.checkouts.len() {
            self.step = Step::Complete;
            return true;
        }
        let branch = self.checkouts[self.i].branch.as_str();
        assert(self@.branch() == branch@);
        if text::same(branch, self.root.as_str()) || self.integrated.contains_key(branch) {
            self.next_branch();
            return true;
        }
        proof {
            lemma_text_map_empty(self.stated@);
        }
        if !self.stated.is_empty() {
            let parent = match self.stated.get(branch) {
                Some(found) => found.clone(),
                None => self.root.clone(),
            };
            self.note_parent(parent);
            self.next_branch();
            return true;
        }
        if self.j < self.checkouts.len() {
            assert(self@.candidate() == self.checkouts@[self.j as int].branch@);
            if text::same(self.checkouts[self.j].branch.as_str(), branch) {
                self.j = self.j + 1;
                return true;
            }
            return false;
        }
        let mut ties = nearness::nearest_relatives(&self.relatives);
        if ties.len() > 1 {
            self.step = Step::Stamps;
            return true;
        }
        if let Some(only) = ties.pop() {
            assert(only@ == self@.ties()[0]);
            self.note_parent(only.name);
        }
        self.next_branch();
        true
    }

    /// Goes on without a reply, if that can be done.
    fn advance(&mut self) -> (moved: bool)
        requires
            old(self)@.sound(),
        ensures
            match old(self)@.advanced() {
                Some(next) => moved && final(self)@ == next,
                None => !moved && final(self)@ == old(self)@,
            },
    {
        match self.step {
            Step::Trunk => self.advance_trunk(),
            Step::Stack => self.advance_stack(),
            Step::Base => self.advance_base(),
            _ => false,
        }
    }

    /// Goes on to the next question.
    fn settle(&mut self)
        requires
            old(self)@.sound(),
        ensures
            final(self)@ == old(self)@.settled(),
    {
        let mut moved = true;
        while moved
            invariant
                self@.sound(),
                self@.settled() == old(self)@.settled(),
                !moved ==> self@ == self@.settled(),
            decreases
                self@.rest().stages,
                self@.rest().branches,
                self@.rest().candidates,
                self@.rest().parts,
                moved as int,
        {
            let ghost before = self@;
            moved = self.advance();
            proof {
                if moved {
                    inquiry::lemma_advanced(before, self@);
                }
            }
        }
    }

    fn take_count(&mut self, count: usize)
        requires
            old(self)@.sound(),
            old(self)@.step is BranchDepth || old(self)@.step is CandidateDepth,
        ensures
            final(self)@ == old(self)@.told(Reply::CommitCount(count)),
    {
        // Positions below a length fit in a usize.
        let _ = self.checkouts.len();
        match self.step {
            Step::BranchDepth => {
                if count == 0 {
                    self.step = Step::Base;
                    self.j = self.j + 1;
                } else {
                    self.depth = count;
                    self.step = Step::CandidateDepth;
                }
            },
            _ => {
                let relative = Relative {
                    name: self.checkouts[self.j].branch.clone(),
                    merge_base: self.base.clone(),
                    branch_depth: self.depth,
                    candidate_depth: count,
                };
                assert(self@.candidate() == relative.name@);
                self.relatives.push(relative);
                self.step = Step::Base;
                self.j = self.j + 1;
                assert(self@.kin =~= old(self)@.kin.push(relative@));
            },
        }
    }

    /// Takes the timestamps of merge bases that tie.
    fn take_stamps(&mut self, stamps: BranchMap<i64>) -> (warning: Notice)
        requires
            old(self)@.sound(),
            old(self)@.step is Stamps,
        ensures
            final(self)@ == old(self)@.told(Reply::Timestamps(stamps)),
            Some(warning@) == old(self)@.warning(Reply::Timestamps(stamps)),
    {
        // Positions below a length fit in a usize.
        let _ = self.checkouts.len();
        let ties = nearness::nearest_relatives(&self.relatives);
        assert(nearness::kindred(ties@) == self@.ties());
        let taken: usize = nearness::break_tie(&ties, &stamps);
        assert(self@.ties()[taken as int] == ties@[taken as int]@);
        let warning = Notice::equidistant(
            self.checkouts[self.i].branch.as_str(),
            &list_names(&ties),
            ties[taken].name.as_str(),
        );
        self.note_parent(ties[taken].name.clone());
        self.next_branch();
        warning
    }

    /// Takes the reply to a question other than that for timestamps.
    fn take(&mut self, reply: Reply)
        requires
            old(self)@.valid(),
            inquiry::fits(old(self)@.asked(), reply),
            !(reply is Timestamps),
        ensures
            final(self)@ == old(self)@.told(reply),
    {
        // Positions below a length fit in a usize.
        let _ = self.checkouts.len();
        match reply {
            Reply::Target(found) => {
                self.target = match found {
                    Some(target) => target,
                    None => self.root.clone(),
                };
                self.step = Step::StackFile;
            },
            Reply::StackFile(found) => {
                self.stated = BranchMap::new();
                if let Some(content) = found {
                    if let Ok(stated) = stack_file::parse_stack_file(
                        content.as_str(),
                        self.root.as_str(),
                    ) {
                        self.stated = stated;
                    }
                } else {
                    assert(self@.stated =~= Map::empty());
                }
                self.step = Step::Trunk;
            },
            Reply::Integrated(yes) => {
                if yes {
                    let branch = self.checkouts[self.i].branch.clone();
                    let path = self.checkouts[self.i].path.clone();
                    self.integrated.insert(branch, path);
                }
                self.i = self.i + 1;
            },
            Reply::MergeBase(found) => match found {
                Some(commit) => {
                    self.base = commit;
                    self.step = Step::BranchDepth;
                },
                None => {
                    self.j = self.j + 1;
                },
            },
            Reply::CommitCount(count) => self.take_count(count),
            Reply::Timestamps(_) => {},
        }
    }

    /// Takes the reply to the question asked. A tie between relatives is reported.
    pub fn answer(&mut self, reply: Reply) -> (warning: Option<Notice>)
        requires
            old(self)@.valid(),
            inquiry::fits(old(self)@.asked(), reply),
        ensures
            final(self)@ == old(self)@.after(reply),
            final(self)@.valid(),
            match warning {
                Some(notice) => old(self)@.warning(reply) == Some(notice@),
                None => old(self)@.warning(reply) is None,
            },
    {
        proof {
            inquiry::law_survey_goes_on(self@, reply);
            inquiry::lemma_told(self@, reply);
        }
        let warning = match reply {
            Reply::Timestamps(stamps) => Some(self.take_stamps(stamps)),
            _ => {
                self.take(reply);
                None
            },
        };
        self.settle();
        warning
    }

    /// The tree and the integrated branches, once nothing is left to ask. They are those of every
    /// repository that gives the replies that were given.
    pub fn finish(self) -> (found: (DependencyTree, BranchMap<PathBuf>))
        requires
            self@.valid(),
            self@.asked() is Finished,
        ensures
            found.1@ == self@.integrated,
            assembly::grown(found.0@, self@.ground(), self@.integrated, self@.parents),
            forall|world: World|
                self@.agrees(world) ==> #[trigger] world.ground(self@.root, self@.sites).bears(
                    world,
                    found.0@,
                    found.1@,
                ),
    {
        let tree = assembly::assemble(
            self.root.as_str(),
            &self.checkouts,
            &self.stated,
            &self.integrated,
            &self.parents,
        );
        proof {
            let ground = assembly::ground_of(
                self.root@,
                self.checkouts@,
                self.stated@,
                self.target@,
            );
            assert(ground == self@.ground());
            assert(assembly::grown(tree@, ground, self@.integrated, self@.parents));
            assert forall|world: World| self@.agrees(world) implies #[trigger] world.ground(
                self@.root,
                self@.sites,
            ).bears(world, tree@, self@.integrated) by {
                assert(world.ground(self@.root, self@.sites) == ground);
            }
        }
        (tree, self.integrated)
    }
}

} // verus!
