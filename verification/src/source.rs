//! Where the faces come from: the thread's random generator, or a script.

use rand::Rng;
use vstd::prelude::*;

verus! {

/// The face at place `i` of a script; a script that has run out shows 0.
pub open spec fn face_at(script: Seq<usize>, i: int) -> usize {
    if 0 <= i < script.len() {
        script[i]
    } else {
        0
    }
}

/// The `len` faces that a script shows from place `start` on.
pub open spec fn window(script: Seq<usize>, start: int, len: nat) -> Seq<usize> {
    Seq::new(len, |i: int| face_at(script, start + i))
}

/// What a source may show as its draw number `i`: a scripted source shows
/// its script, a random one any face of a six-sided die.
pub open spec fn admits(script: Option<Seq<usize>>, i: int, face: usize) -> bool {
    match script {
        Some(s) => face == face_at(s, i),
        None => 1 <= face <= 6,
    }
}

/// One roll of a six-sided die.
///
/// Calls `rand::thread_rng` and `rand::Rng::gen_range` on `1..=6`, which
/// returns a value of that range. Nothing more is claimed of the face: it
/// is random.
#[verifier::external_body]
pub fn dice_roll() -> (face: usize)
    ensures
        1 <= face <= 6,
{
    let mut rng = rand::thread_rng();
    rng.gen_range(1..=6)
}

/// A source of faces. It remembers, in ghost state, every face it has shown.
pub struct RollSource {
    script: Option<Vec<usize>>,
    next: usize,
    log: Ghost<Seq<usize>>,
}

impl RollSource {
    /// The script of a scripted source; `None` for a random one.
    pub closed spec fn script(&self) -> Option<Seq<usize>> {
        match self.script {
            Some(v) => Some(v@),
            None => None,
        }
    }

    /// Every face shown so far, oldest first.
    pub closed spec fn drawn(&self) -> Seq<usize> {
        self.log@
    }

    pub closed spec fn in_step(&self) -> bool {
        match self.script {
            Some(v) => self.next == if self.log@.len() < v@.len() {
                self.log@.len()
            } else {
                v@.len()
            },
            None => true,
        }
    }

    /// Every face shown is one that the source admits at its place.
    pub open spec fn wf(&self) -> bool {
        &&& self.in_step()
        &&& forall|i: int|
            0 <= i < self.drawn().len() ==> admits(self.script(), i, #[trigger] self.drawn()[i])
    }

    /// The faces shown after `before` was the state of this source.
    pub open spec fn since(&self, before: &Self) -> Seq<usize> {
        self.drawn().skip(before.drawn().len() as int)
    }

    /// This state came from `before` by drawing and by nothing else.
    pub open spec fn continues(&self, before: &Self) -> bool {
        &&& self.script() == before.script()
        &&& before.drawn().len() <= self.drawn().len()
        &&& self.drawn() == before.drawn() + self.since(before)
    }

    /// A source that rolls a real die on each draw.
    pub fn random() -> (src: Self)
        ensures
            src.wf(),
            src.script().is_none(),
            src.drawn() == Seq::<usize>::empty(),
    {
        RollSource { script: None, next: 0, log: Ghost(Seq::empty()) }
    }

    /// A source that shows `faces` in order, and 0 once they have run out.
    pub fn scripted(faces: Vec<usize>) -> (src: Self)
        ensures
            src.wf(),
            src.script() == Some(faces@),
            src.drawn() == Seq::<usize>::empty(),
    {
        RollSource { script: Some(faces), next: 0, log: Ghost(Seq::empty()) }
    }

    /// Draws one face.
    pub fn roll(&mut self) -> (face: usize)
        requires
            old(self).wf(),
        ensures
            final(self).wf(),
            final(self).script() == old(self).script(),
            final(self).drawn() == old(self).drawn().push(face),
            admits(old(self).script(), old(self).drawn().len() as int, face),
    {
        let face: usize = match &self.script {
            Some(faces) => {
                if self.next < faces.len() {
                    let f: usize = faces[self.next];
                    self.next = self.next + 1;
                    f
                } else {
                    0
                }
            },
            None => dice_roll(),
        };
        proof {
            let ghost shown = self.log@;
            self.log@ = shown.push(face);
            assert(admits(old(self).script(), shown.len() as int, face));
            assert forall|i: int| 0 <= i < self.drawn().len() implies admits(
                self.script(),
                i,
                #[trigger] self.drawn()[i],
            ) by {
                if i < shown.len() {
                    assert(self.drawn()[i] == old(self).drawn()[i]);
                }
            }
        }
        face
    }
}

/// Drawing is transitive, and what was drawn adds up.
pub proof fn lemma_continues_trans(a: &RollSource, b: &RollSource, c: &RollSource)
    requires
        b.continues(a),
        c.continues(b),
    ensures
        c.continues(a),
        c.since(a) == b.since(a) + c.since(b),
{
    assert(c.since(a) =~= b.since(a) + c.since(b));
    assert(c.drawn() =~= a.drawn() + c.since(a));
}

/// What a scripted source has shown since `before` is the window of its
/// script that starts where `before` stood.
pub proof fn lemma_scripted_since(before: &RollSource, after: &RollSource)
    requires
        after.wf(),
        after.continues(before),
        after.script().is_some(),
    ensures
        after.since(before) == window(
            after.script().unwrap(),
            before.drawn().len() as int,
            after.since(before).len(),
        ),
{
    assert(after.since(before) =~= window(
        after.script().unwrap(),
        before.drawn().len() as int,
        after.since(before).len(),
    ));
}

} // verus!
