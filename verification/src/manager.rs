//! The multi-track managers: a named collection of animation tracks with a
//! handle to the one selected track. Per-tick calls are forwarded verbatim
//! to the selected track; every other track is left untouched.
//!
//! Selecting a name looks nothing up: it only moves the handle. Every
//! forwarding call demands that the selected name is actually stored, and
//! selecting a track never resets it — a caller that wants the newly
//! selected track at frame 0 resets it explicitly.

use vstd::prelude::*;

use crate::animation::Animation;
use crate::interpolated::{Interpolatable, InterpolatedAnimation};

verus! {

/// A named collection of plain animation tracks, at most one of which is
/// selected at a time.
pub struct AnimationManager<T> {
    animations: Vec<(String, Animation<T>)>,
    current_animation: String,
}

impl<T> AnimationManager<T> {
    /// The names of the stored tracks, in insertion order.
    pub closed spec fn names(self) -> Seq<Seq<char>> {
        self.animations@.map(|_i: int, e: (String, Animation<T>)| e.0@)
    }

    /// The track stored at position `i`.
    pub closed spec fn track_at(self, i: int) -> Animation<T> {
        self.animations@[i].1
    }

    /// The name of the selected track.
    pub closed spec fn selected(self) -> Seq<char> {
        self.current_animation@
    }

    /// Whether a track is stored under `name`.
    pub open spec fn has_track(self, name: Seq<char>) -> bool {
        exists|i: int| 0 <= i < self.names().len() && self.names()[i] == name
    }

    /// The position of the track stored under `name`.
    pub open spec fn index_of(self, name: Seq<char>) -> int {
        choose|i: int| 0 <= i < self.names().len() && self.names()[i] == name
    }

    /// The track stored under `name`.
    pub open spec fn track(self, name: Seq<char>) -> Animation<T> {
        self.track_at(self.index_of(name))
    }

    /// The manager's invariant: track names are pairwise distinct and every
    /// stored track is well formed.
    pub open spec fn wf(self) -> bool {
        &&& forall|i: int, j: int|
            0 <= i < j < self.names().len() ==> self.names()[i] != self.names()[j]
        &&& forall|i: int| 0 <= i < self.names().len() ==> (#[trigger] self.track_at(i)).wf()
    }

    /// A manager with no tracks and nothing selected.
    pub fn new() -> (result: AnimationManager<T>)
        ensures
            result.wf(),
            result.names() == Seq::<Seq<char>>::empty(),
            result.selected() == Seq::<char>::empty(),
    {
        let manager = AnimationManager {
            animations: Vec::new(),
            current_animation: String::new(),
        };
        proof {
            assert(manager.names() =~= Seq::<Seq<char>>::empty());
        }
        manager
    }

    /// The position of the track stored under `name`, if any.
    #[verifier::loop_isolation(false)]
    fn find_index(&self, name: &str) -> (result: Option<usize>)
        ensures
            match result {
                Some(k) => k < self.names().len() && self.names()[k as int] == name@,
                None => !self.has_track(name@),
            },
    {
        let owned: String = name.to_owned();
        let n = self.animations.len();
        let mut k: usize = 0;
        while k < n
            invariant
                k <= n,
                forall|j: int| 0 <= j < k ==> self.names()[j] != name@,
            decreases n - k,
        {
            proof {
                assert(self.names()[k as int] == self.animations@[k as int].0@);
            }
            if self.animations[k].0 == owned {
                return Some(k);
            }
            k = k + 1;
        }
        None
    }

    /// Stores `animation` under `name`, replacing any track already stored
    /// under that name. The selected name is untouched, so adding never
    /// changes which track the forwarding calls go to.
    pub fn add_animation(&mut self, name: &str, animation: Animation<T>)
        requires
            old(self).wf(),
            animation.wf(),
        ensures
            final(self).wf(),
            final(self).selected() == old(self).selected(),
            final(self).has_track(name@),
            final(self).track(name@) == animation,
            forall|other: Seq<char>|
                other != name@ ==> final(self).has_track(other) == old(self).has_track(other),
            forall|other: Seq<char>|
                other != name@ && old(self).has_track(other) ==> final(self).track(other) == old(
                    self,
                ).track(other),
    {
        let ghost pre = *old(self);
        let found = self.find_index(name);
        let entry = (name.to_owned(), animation);
        match found {
            Some(k) => {
                self.animations.remove(k);
                self.animations.insert(k, entry);
                proof {
                    assert(self.animations@ =~= pre.animations@.update(
                        k as int,
                        (entry.0, entry.1),
                    ));
                    assert forall|i: int|
                        0 <= i < self.names().len() implies self.names()[i] == pre.names()[i] by {
                        assert(self.names()[i] == self.animations@[i].0@);
                        assert(pre.names()[i] == pre.animations@[i].0@);
                    }
                    assert(self.names() =~= pre.names());
                    assert(self.track_at(k as int) == animation);
                    assert forall|i: int|
                        0 <= i < self.animations@.len() && i != k implies self.track_at(i)
                        == pre.track_at(i) by {
                        assert(self.animations@[i] == pre.animations@[i]);
                    }
                    assert forall|i: int, j: int|
                        0 <= i < j < self.names().len() implies self.names()[i]
                        != self.names()[j] by {
                        assert(pre.names()[i] != pre.names()[j]);
                    }
                    assert forall|i: int|
                        0 <= i < self.names().len() implies (#[trigger] self.track_at(i)).wf() by {
                        if i != k {
                            assert(self.track_at(i) == pre.track_at(i));
                            assert(pre.track_at(i).wf());
                        }
                    }
                    lemma_manager_index_is(*self, name@, k as int);
                    assert forall|other: Seq<char>| other != name@ implies final(self).has_track(
                        other,
                    ) == pre.has_track(other) by {
                        lemma_manager_same_names_has(*self, pre, other);
                    }
                    assert forall|other: Seq<char>|
                        other != name@ && pre.has_track(other) implies final(self).track(other)
                        == pre.track(other) by {
                        let i = choose|i: int|
                            0 <= i < pre.names().len() && pre.names()[i] == other;
                        lemma_manager_index_is(pre, other, i);
                        lemma_manager_index_is(*self, other, i);
                        assert(i != k);
                        assert(self.track_at(i) == pre.track_at(i));
                    }
                }
            },
            None => {
                self.animations.push(entry);
                proof {
                    let last = pre.animations@.len() as int;
                    assert forall|i: int|
                        0 <= i < self.names().len() implies self.names()[i] == pre.names().push(
                            name@,
                        )[i] by {
                        assert(self.names()[i] == self.animations@[i].0@);
                        if i < last {
                            assert(pre.names()[i] == pre.animations@[i].0@);
                        }
                    }
                    assert(self.names() =~= pre.names().push(name@));
                    assert(self.track_at(last) == animation);
                    assert forall|i: int| 0 <= i < last implies self.track_at(i) == pre.track_at(
                        i,
                    ) by {
                        assert(self.animations@[i] == pre.animations@[i]);
                    }
                    assert forall|i: int, j: int|
                        0 <= i < j < self.names().len() implies self.names()[i]
                        != self.names()[j] by {
                        if j == last {
                            assert(self.names()[i] == pre.names()[i]);
                            assert(!pre.has_track(name@));
                        } else {
                            assert(pre.names()[i] != pre.names()[j]);
                        }
                    }
                    assert forall|i: int|
                        0 <= i < self.names().len() implies (#[trigger] self.track_at(i)).wf() by {
                        if i != last {
                            assert(self.track_at(i) == pre.track_at(i));
                            assert(pre.track_at(i).wf());
                        }
                    }
                    lemma_manager_index_is(*self, name@, last);
                    assert forall|other: Seq<char>| other != name@ implies final(self).has_track(
                        other,
                    ) == pre.has_track(other) by {
                        if pre.has_track(other) {
                            let i = choose|i: int|
                                0 <= i < pre.names().len() && pre.names()[i] == other;
                            assert(self.names()[i] == other);
                            assert(self.has_track(other));
                        }
                        if self.has_track(other) {
                            let i = choose|i: int|
                                0 <= i < self.names().len() && self.names()[i] == other;
                            assert(i != last);
                            assert(pre.names()[i] == other);
                            assert(pre.has_track(other));
                        }
                    }
                    assert forall|other: Seq<char>|
                        other != name@ && pre.has_track(other) implies final(self).track(other)
                        == pre.track(other) by {
                        let i = choose|i: int|
                            0 <= i < pre.names().len() && pre.names()[i] == other;
                        lemma_manager_index_is(pre, other, i);
                        lemma_manager_index_is(*self, other, i);
                        assert(self.track_at(i) == pre.track_at(i));
                    }
                }
            },
        }
    }

    /// Selects the track stored under `name`. Nothing is looked up, reset
    /// or updated: a name with no stored track may be selected, and every
    /// later forwarding call then demands that a track be stored first.
    pub fn play(&mut self, name: &str)
        requires
            old(self).wf(),
        ensures
            final(self).wf(),
            final(self).selected() == name@,
            final(self).names() == old(self).names(),
            forall|n2: Seq<char>| final(self).has_track(n2) == old(self).has_track(n2),
            forall|n2: Seq<char>|
                old(self).has_track(n2) ==> final(self).track(n2) == old(self).track(n2),
    {
        let ghost pre = *old(self);
        self.current_animation = name.to_owned();
        proof {
            assert(self.animations@ == pre.animations@);
            assert(self.names() =~= pre.names());
            assert forall|i: int| 0 <= i < self.animations@.len() implies self.track_at(i)
                == pre.track_at(i) by {}
            assert forall|i: int, j: int|
                0 <= i < j < self.names().len() implies self.names()[i] != self.names()[j] by {
                assert(pre.names()[i] != pre.names()[j]);
            }
            assert forall|i: int|
                0 <= i < self.names().len() implies (#[trigger] self.track_at(i)).wf() by {
                assert(self.track_at(i) == pre.track_at(i));
                assert(pre.track_at(i).wf());
            }
            assert forall|n2: Seq<char>| final(self).has_track(n2) == pre.has_track(n2) by {
                lemma_manager_same_names_has(*self, pre, n2);
            }
            assert forall|n2: Seq<char>| pre.has_track(n2) implies final(self).track(n2)
                == pre.track(n2) by {
                let i = choose|i: int| 0 <= i < pre.names().len() && pre.names()[i] == n2;
                lemma_manager_index_is(pre, n2, i);
                lemma_manager_index_is(*self, n2, i);
            }
        }
    }

    /// Forwards an `update` call to the selected track: that track's cursor
    /// advances by `dt`, and no other track is touched.
    pub fn update(&mut self, dt: u64)
        requires
            old(self).wf(),
            old(self).has_track(old(self).selected()),
            old(self).track(old(self).selected()).total_time() + dt <= u64::MAX,
        ensures
            final(self).wf(),
            final(self).selected() == old(self).selected(),
            final(self).names() == old(self).names(),
            final(self).track(final(self).selected()).wf(),
            final(self).track(final(self).selected()).updated_from(
                old(self).track(old(self).selected()),
                dt as int,
            ),
            forall|n2: Seq<char>| final(self).has_track(n2) == old(self).has_track(n2),
            forall|n2: Seq<char>|
                n2 != old(self).selected() && old(self).has_track(n2) ==> final(self).track(n2)
                    == old(self).track(n2),
    {
        let ghost pre = *old(self);
        let found = self.find_index(self.current_animation.as_str());
        let k: usize = match found {
            Some(k) => k,
            None => {
                proof {
                    assert(false);
                }
                0
            },
        };
        proof {
            lemma_manager_index_is(pre, pre.selected(), k as int);
            assert(pre.track_at(k as int).wf());
        }
        let mut entry = self.animations.remove(k);
        proof {
            assert(entry == pre.animations@[k as int]);
            assert(entry.1 == pre.track_at(k as int));
        }
        entry.1.update(dt);
        self.animations.insert(k, entry);
        proof {
            assert(self.animations@ =~= pre.animations@.update(k as int, (entry.0, entry.1)));
            assert forall|i: int|
                0 <= i < self.names().len() implies self.names()[i] == pre.names()[i] by {
                assert(self.names()[i] == self.animations@[i].0@);
                assert(pre.names()[i] == pre.animations@[i].0@);
                if i != k {
                    assert(self.animations@[i] == pre.animations@[i]);
                }
            }
            assert(self.names() =~= pre.names());
            assert(self.track_at(k as int) == entry.1);
            assert forall|i: int|
                0 <= i < self.animations@.len() && i != k implies self.track_at(i)
                == pre.track_at(i) by {
                assert(self.animations@[i] == pre.animations@[i]);
            }
            assert forall|i: int, j: int|
                0 <= i < j < self.names().len() implies self.names()[i] != self.names()[j] by {
                assert(pre.names()[i] != pre.names()[j]);
            }
            assert forall|i: int|
                0 <= i < self.names().len() implies (#[trigger] self.track_at(i)).wf() by {
                if i != k {
                    assert(self.track_at(i) == pre.track_at(i));
                    assert(pre.track_at(i).wf());
                }
            }
            lemma_manager_index_is(*self, pre.selected(), k as int);
            assert forall|n2: Seq<char>| final(self).has_track(n2) == pre.has_track(n2) by {
                lemma_manager_same_names_has(*self, pre, n2);
            }
            assert forall|n2: Seq<char>|
                n2 != pre.selected() && pre.has_track(n2) implies final(self).track(n2)
                == pre.track(n2) by {
                let i = choose|i: int| 0 <= i < pre.names().len() && pre.names()[i] == n2;
                lemma_manager_index_is(pre, n2, i);
                lemma_manager_index_is(*self, n2, i);
                assert(i != k);
                assert(self.track_at(i) == pre.track_at(i));
            }
        }
    }

    /// Forwards a `reset` call to the selected track: that track's cursor
    /// returns to the start of its timeline, and no other track is touched.
    pub fn reset(&mut self)
        requires
            old(self).wf(),
            old(self).has_track(old(self).selected()),
        ensures
            final(self).wf(),
            final(self).selected() == old(self).selected(),
            final(self).names() == old(self).names(),
            final(self).track(final(self).selected()).wf(),
            final(self).track(final(self).selected()).reset_from(
                old(self).track(old(self).selected()),
            ),
            forall|n2: Seq<char>| final(self).has_track(n2) == old(self).has_track(n2),
            forall|n2: Seq<char>|
                n2 != old(self).selected() && old(self).has_track(n2) ==> final(self).track(n2)
                    == old(self).track(n2),
    {
        let ghost pre = *old(self);
        let found = self.find_index(self.current_animation.as_str());
        let k: usize = match found {
            Some(k) => k,
            None => {
                proof {
                    assert(false);
                }
                0
            },
        };
        proof {
            lemma_manager_index_is(pre, pre.selected(), k as int);
            assert(pre.track_at(k as int).wf());
        }
        let mut entry = self.animations.remove(k);
        proof {
            assert(entry == pre.animations@[k as int]);
            assert(entry.1 == pre.track_at(k as int));
        }
        entry.1.reset();
        self.animations.insert(k, entry);
        proof {
            assert(self.animations@ =~= pre.animations@.update(k as int, (entry.0, entry.1)));
            assert forall|i: int|
                0 <= i < self.names().len() implies self.names()[i] == pre.names()[i] by {
                assert(self.names()[i] == self.animations@[i].0@);
                assert(pre.names()[i] == pre.animations@[i].0@);
                if i != k {
                    assert(self.animations@[i] == pre.animations@[i]);
                }
            }
            assert(self.names() =~= pre.names());
            assert(self.track_at(k as int) == entry.1);
            assert forall|i: int|
                0 <= i < self.animations@.len() && i != k implies self.track_at(i)
                == pre.track_at(i) by {
                assert(self.animations@[i] == pre.animations@[i]);
            }
            assert forall|i: int, j: int|
                0 <= i < j < self.names().len() implies self.names()[i] != self.names()[j] by {
                assert(pre.names()[i] != pre.names()[j]);
            }
            assert forall|i: int|
                0 <= i < self.names().len() implies (#[trigger] self.track_at(i)).wf() by {
                if i != k {
                    assert(self.track_at(i) == pre.track_at(i));
                    assert(pre.track_at(i).wf());
                }
            }
            lemma_manager_index_is(*self, pre.selected(), k as int);
            assert forall|n2: Seq<char>| final(self).has_track(n2) == pre.has_track(n2) by {
                lemma_manager_same_names_has(*self, pre, n2);
            }
            assert forall|n2: Seq<char>|
                n2 != pre.selected() && pre.has_track(n2) implies final(self).track(n2)
                == pre.track(n2) by {
                let i = choose|i: int| 0 <= i < pre.names().len() && pre.names()[i] == n2;
                lemma_manager_index_is(pre, n2, i);
                lemma_manager_index_is(*self, n2, i);
                assert(i != k);
                assert(self.track_at(i) == pre.track_at(i));
            }
        }
    }

    /// Whether the selected track reached its terminal frame on the most
    /// recent `update` call forwarded to it.
    pub fn finished(&self) -> (result: bool)
        requires
            self.wf(),
            self.has_track(self.selected()),
        ensures
            result == self.track(self.selected()).cursor().finished,
    {
        let found = self.find_index(self.current_animation.as_str());
        let k: usize = match found {
            Some(k) => k,
            None => {
                proof {
                    assert(false);
                }
                0
            },
        };
        proof {
            lemma_manager_index_is(*self, self.selected(), k as int);
            assert(self.animations@[k as int].1 == self.track_at(k as int));
        }
        self.animations[k].1.is_finished()
    }

    /// The value of the frame the selected track's cursor stands on.
    pub fn get_frame(&self) -> (result: &T)
        requires
            self.wf(),
            self.has_track(self.selected()),
        ensures
            *result == self.track(self.selected()).values()[self.track(
                self.selected(),
            ).cursor().idx],
    {
        let found = self.find_index(self.current_animation.as_str());
        let k: usize = match found {
            Some(k) => k,
            None => {
                proof {
                    assert(false);
                }
                0
            },
        };
        proof {
            lemma_manager_index_is(*self, self.selected(), k as int);
            assert(self.animations@[k as int].1 == self.track_at(k as int));
            assert(self.track_at(k as int).wf());
        }
        self.animations[k].1.get_frame()
    }
}

/// Under pairwise-distinct names, the position of a stored name is the one
/// index where the name occurs.
proof fn lemma_manager_index_is<T>(m: AnimationManager<T>, name: Seq<char>, i: int)
    requires
        forall|p: int, q: int| 0 <= p < q < m.names().len() ==> m.names()[p] != m.names()[q],
        0 <= i < m.names().len(),
        m.names()[i] == name,
    ensures
        m.has_track(name),
        m.index_of(name) == i,
{
    assert(m.has_track(name));
    let w = m.index_of(name);
    assert(0 <= w < m.names().len() && m.names()[w] == name);
    if w != i {
        if w < i {
            assert(m.names()[w] != m.names()[i]);
        } else {
            assert(m.names()[i] != m.names()[w]);
        }
    }
}

/// Two managers with the same stored names hold tracks under the same names.
proof fn lemma_manager_same_names_has<T>(
    a: AnimationManager<T>,
    b: AnimationManager<T>,
    name: Seq<char>,
)
    requires
        a.names() == b.names(),
    ensures
        a.has_track(name) == b.has_track(name),
{
    if a.has_track(name) {
        let i = choose|i: int| 0 <= i < a.names().len() && a.names()[i] == name;
        assert(b.names()[i] == name);
        assert(b.has_track(name));
    }
    if b.has_track(name) {
        let i = choose|i: int| 0 <= i < b.names().len() && b.names()[i] == name;
        assert(a.names()[i] == name);
        assert(a.has_track(name));
    }
}

/// A named collection of interpolating animation tracks, at most one of
/// which is selected at a time.
pub struct InterpolatedAnimationManager<T> {
    animations: Vec<(String, InterpolatedAnimation<T>)>,
    current_animation: String,
}

impl<T: Interpolatable + Copy> InterpolatedAnimationManager<T> {
    /// The names of the stored tracks, in insertion order.
    pub closed spec fn names(self) -> Seq<Seq<char>> {
        self.animations@.map(|_i: int, e: (String, InterpolatedAnimation<T>)| e.0@)
    }

    /// The track stored at position `i`.
    pub closed spec fn track_at(self, i: int) -> InterpolatedAnimation<T> {
        self.animations@[i].1
    }

    /// The name of the selected track.
    pub closed spec fn selected(self) -> Seq<char> {
        self.current_animation@
    }

    /// Whether a track is stored under `name`.
    pub open spec fn has_track(self, name: Seq<char>) -> bool {
        exists|i: int| 0 <= i < self.names().len() && self.names()[i] == name
    }

    /// The position of the track stored under `name`.
    pub open spec fn index_of(self, name: Seq<char>) -> int {
        choose|i: int| 0 <= i < self.names().len() && self.names()[i] == name
    }

    /// The track stored under `name`.
    pub open spec fn track(self, name: Seq<char>) -> InterpolatedAnimation<T> {
        self.track_at(self.index_of(name))
    }

    /// The manager's invariant: track names are pairwise distinct and every
    /// stored track is well formed.
    pub open spec fn wf(self) -> bool {
        &&& forall|i: int, j: int|
            0 <= i < j < self.names().len() ==> self.names()[i] != self.names()[j]
        &&& forall|i: int| 0 <= i < self.names().len() ==> (#[trigger] self.track_at(i)).wf()
    }

    /// A manager with no tracks and nothing selected.
    pub fn new() -> (result: InterpolatedAnimationManager<T>)
        ensures
            result.wf(),
            result.names() == Seq::<Seq<char>>::empty(),
            result.selected() == Seq::<char>::empty(),
    {
        let manager = InterpolatedAnimationManager {
            animations: Vec::new(),
            current_animation: String::new(),
        };
        proof {
            assert(manager.names() =~= Seq::<Seq<char>>::empty());
        }
        manager
    }

    /// The position of the track stored under `name`, if any.
    #[verifier::loop_isolation(false)]
    fn find_index(&self, name: &str) -> (result: Option<usize>)
        ensures
            match result {
                Some(k) => k < self.names().len() && self.names()[k as int] == name@,
                None => !self.has_track(name@),
            },
    {
        let owned: String = name.to_owned();
        let n = self.animations.len();
        let mut k: usize = 0;
        while k < n
            invariant
                k <= n,
                forall|j: int| 0 <= j < k ==> self.names()[j] != name@,
            decreases n - k,
        {
            proof {
                assert(self.names()[k as int] == self.animations@[k as int].0@);
            }
            if self.animations[k].0 == owned {
                return Some(k);
            }
            k = k + 1;
        }
        None
    }

    /// Stores `animation` under `name`, replacing any track already stored
    /// under that name. The selected name is untouched, so adding never
    /// changes which track the forwarding calls go to.
    pub fn add_animation(&mut self, name: &str, animation: InterpolatedAnimation<T>)
        requires
            old(self).wf(),
            animation.wf(),
        ensures
            final(self).wf(),
            final(self).selected() == old(self).selected(),
            final(self).has_track(name@),
            final(self).track(name@) == animation,
            forall|other: Seq<char>|
                other != name@ ==> final(self).has_track(other) == old(self).has_track(other),
            forall|other: Seq<char>|
                other != name@ && old(self).has_track(other) ==> final(self).track(other) == old(
                    self,
                ).track(other),
    {
        let ghost pre = *old(self);
        let found = self.find_index(name);
        let entry = (name.to_owned(), animation);
        match found {
            Some(k) => {
                self.animations.remove(k);
                self.animations.insert(k, entry);
                proof {
                    assert(self.animations@ =~= pre.animations@.update(
                        k as int,
                        (entry.0, entry.1),
                    ));
                    assert forall|i: int|
                        0 <= i < self.names().len() implies self.names()[i] == pre.names()[i] by {
                        assert(self.names()[i] == self.animations@[i].0@);
                        assert(pre.names()[i] == pre.animations@[i].0@);
                    }
                    assert(self.names() =~= pre.names());
                    assert(self.track_at(k as int) == animation);
                    assert forall|i: int|
                        0 <= i < self.animations@.len() && i != k implies self.track_at(i)
                        == pre.track_at(i) by {
                        assert(self.animations@[i] == pre.animations@[i]);
                    }
                    assert forall|i: int, j: int|
                        0 <= i < j < self.names().len() implies self.names()[i]
                        != self.names()[j] by {
                        assert(pre.names()[i] != pre.names()[j]);
                    }
                    assert forall|i: int|
                        0 <= i < self.names().len() implies (#[trigger] self.track_at(i)).wf() by {
                        if i != k {
                            assert(self.track_at(i) == pre.track_at(i));
                            assert(pre.track_at(i).wf());
                        }
                    }
                    lemma_interpolated_index_is(*self, name@, k as int);
                    assert forall|other: Seq<char>| other != name@ implies final(self).has_track(
                        other,
                    ) == pre.has_track(other) by {
                        lemma_interpolated_same_names_has(*self, pre, other);
                    }
                    assert forall|other: Seq<char>|
                        other != name@ && pre.has_track(other) implies final(self).track(other)
                        == pre.track(other) by {
                        let i = choose|i: int|
                            0 <= i < pre.names().len() && pre.names()[i] == other;
                        lemma_interpolated_index_is(pre, other, i);
                        lemma_interpolated_index_is(*self, other, i);
                        assert(i != k);
                        assert(self.track_at(i) == pre.track_at(i));
                    }
                }
            },
            None => {
                self.animations.push(entry);
                proof {
                    let last = pre.animations@.len() as int;
                    assert forall|i: int|
                        0 <= i < self.names().len() implies self.names()[i] == pre.names().push(
                            name@,
                        )[i] by {
                        assert(self.names()[i] == self.animations@[i].0@);
                        if i < last {
                            assert(pre.names()[i] == pre.animations@[i].0@);
                        }
                    }
                    assert(self.names() =~= pre.names().push(name@));
                    assert(self.track_at(last) == animation);
                    assert forall|i: int| 0 <= i < last implies self.track_at(i) == pre.track_at(
                        i,
                    ) by {
                        assert(self.animations@[i] == pre.animations@[i]);
                    }
                    assert forall|i: int, j: int|
                        0 <= i < j < self.names().len() implies self.names()[i]
                        != self.names()[j] by {
                        if j == last {
                            assert(self.names()[i] == pre.names()[i]);
                            assert(!pre.has_track(name@));
                        } else {
                            assert(pre.names()[i] != pre.names()[j]);
                        }
                    }
                    assert forall|i: int|
                        0 <= i < self.names().len() implies (#[trigger] self.track_at(i)).wf() by {
                        if i != last {
                            assert(self.track_at(i) == pre.track_at(i));
                            assert(pre.track_at(i).wf());
                        }
                    }
                    lemma_interpolated_index_is(*self, name@, last);
                    assert forall|other: Seq<char>| other != name@ implies final(self).has_track(
                        other,
                    ) == pre.has_track(other) by {
                        if pre.has_track(other) {
                            let i = choose|i: int|
                                0 <= i < pre.names().len() && pre.names()[i] == other;
                            assert(self.names()[i] == other);
                            assert(self.has_track(other));
                        }
                        if self.has_track(other) {
                            let i = choose|i: int|
                                0 <= i < self.names().len() && self.names()[i] == other;
                            assert(i != last);
                            assert(pre.names()[i] == other);
                            assert(pre.has_track(other));
                        }
                    }
                    assert forall|other: Seq<char>|
                        other != name@ && pre.has_track(other) implies final(self).track(other)
                        == pre.track(other) by {
                        let i = choose|i: int|
                            0 <= i < pre.names().len() && pre.names()[i] == other;
                        lemma_interpolated_index_is(pre, other, i);
                        lemma_interpolated_index_is(*self, other, i);
                        assert(self.track_at(i) == pre.track_at(i));
                    }
                }
            },
        }
    }

    /// Selects the track stored under `name`. Nothing is looked up, reset
    /// or updated: a name with no stored track may be selected, and every
    /// later forwarding call then demands that a track be stored first.
    pub fn play(&mut self, name: &str)
        requires
            old(self).wf(),
        ensures
            final(self).wf(),
            final(self).selected() == name@,
            final(self).names() == old(self).names(),
            forall|n2: Seq<char>| final(self).has_track(n2) == old(self).has_track(n2),
            forall|n2: Seq<char>|
                old(self).has_track(n2) ==> final(self).track(n2) == old(self).track(n2),
    {
        let ghost pre = *old(self);
        self.current_animation = name.to_owned();
        proof {
            assert(self.animations@ == pre.animations@);
            assert(self.names() =~= pre.names());
            assert forall|i: int| 0 <= i < self.animations@.len() implies self.track_at(i)
                == pre.track_at(i) by {}
            assert forall|i: int, j: int|
                0 <= i < j < self.names().len() implies self.names()[i] != self.names()[j] by {
                assert(pre.names()[i] != pre.names()[j]);
            }
            assert forall|i: int|
                0 <= i < self.names().len() implies (#[trigger] self.track_at(i)).wf() by {
                assert(self.track_at(i) == pre.track_at(i));
                assert(pre.track_at(i).wf());
            }
            assert forall|n2: Seq<char>| final(self).has_track(n2) == pre.has_track(n2) by {
                lemma_interpolated_same_names_has(*self, pre, n2);
            }
            assert forall|n2: Seq<char>| pre.has_track(n2) implies final(self).track(n2)
                == pre.track(n2) by {
                let i = choose|i: int| 0 <= i < pre.names().len() && pre.names()[i] == n2;
                lemma_interpolated_index_is(pre, n2, i);
                lemma_interpolated_index_is(*self, n2, i);
            }
        }
    }

    /// Forwards an `update` call to the selected track: that track's cursor
    /// advances by `dt`, and no other track is touched.
    pub fn update(&mut self, dt: u64)
        requires
            old(self).wf(),
            old(self).has_track(old(self).selected()),
            old(self).track(old(self).selected()).total_time() + dt <= u64::MAX,
        ensures
            final(self).wf(),
            final(self).selected() == old(self).selected(),
            final(self).names() == old(self).names(),
            final(self).track(final(self).selected()).wf(),
            final(self).track(final(self).selected()).updated_from(
                old(self).track(old(self).selected()),
                dt as int,
            ),
            forall|n2: Seq<char>| final(self).has_track(n2) == old(self).has_track(n2),
            forall|n2: Seq<char>|
                n2 != old(self).selected() && old(self).has_track(n2) ==> final(self).track(n2)
                    == old(self).track(n2),
    {
        let ghost pre = *old(self);
        let found = self.find_index(self.current_animation.as_str());
        let k: usize = match found {
            Some(k) => k,
            None => {
                proof {
                    assert(false);
                }
                0
            },
        };
        proof {
            lemma_interpolated_index_is(pre, pre.selected(), k as int);
            assert(pre.track_at(k as int).wf());
        }
        let mut entry = self.animations.remove(k);
        proof {
            assert(entry == pre.animations@[k as int]);
            assert(entry.1 == pre.track_at(k as int));
        }
        entry.1.update(dt);
        self.animations.insert(k, entry);
        proof {
            assert(self.animations@ =~= pre.animations@.update(k as int, (entry.0, entry.1)));
            assert forall|i: int|
                0 <= i < self.names().len() implies self.names()[i] == pre.names()[i] by {
                assert(self.names()[i] == self.animations@[i].0@);
                assert(pre.names()[i] == pre.animations@[i].0@);
                if i != k {
                    assert(self.animations@[i] == pre.animations@[i]);
                }
            }
            assert(self.names() =~= pre.names());
            assert(self.track_at(k as int) == entry.1);
            assert forall|i: int|
                0 <= i < self.animations@.len() && i != k implies self.track_at(i)
                == pre.track_at(i) by {
                assert(self.animations@[i] == pre.animations@[i]);
            }
            assert forall|i: int, j: int|
                0 <= i < j < self.names().len() implies self.names()[i] != self.names()[j] by {
                assert(pre.names()[i] != pre.names()[j]);
            }
            assert forall|i: int|
                0 <= i < self.names().len() implies (#[trigger] self.track_at(i)).wf() by {
                if i != k {
                    assert(self.track_at(i) == pre.track_at(i));
                    assert(pre.track_at(i).wf());
                }
            }
            lemma_interpolated_index_is(*self, pre.selected(), k as int);
            assert forall|n2: Seq<char>| final(self).has_track(n2) == pre.has_track(n2) by {
                lemma_interpolated_same_names_has(*self, pre, n2);
            }
            assert forall|n2: Seq<char>|
                n2 != pre.selected() && pre.has_track(n2) implies final(self).track(n2)
                == pre.track(n2) by {
                let i = choose|i: int| 0 <= i < pre.names().len() && pre.names()[i] == n2;
                lemma_interpolated_index_is(pre, n2, i);
                lemma_interpolated_index_is(*self, n2, i);
                assert(i != k);
                assert(self.track_at(i) == pre.track_at(i));
            }
        }
    }

    /// Forwards a `reset` call to the selected track: that track's cursor
    /// returns to the start of its timeline, and no other track is touched.
    pub fn reset(&mut self)
        requires
            old(self).wf(),
            old(self).has_track(old(self).selected()),
        ensures
            final(self).wf(),
            final(self).selected() == old(self).selected(),
            final(self).names() == old(self).names(),
            final(self).track(final(self).selected()).wf(),
            final(self).track(final(self).selected()).reset_from(
                old(self).track(old(self).selected()),
            ),
            final(self).track(final(self).selected()).current_value() == final(self).track(
                final(self).selected(),
            ).values()[0],
            forall|n2: Seq<char>| final(self).has_track(n2) == old(self).has_track(n2),
            forall|n2: Seq<char>|
                n2 != old(self).selected() && old(self).has_track(n2) ==> final(self).track(n2)
                    == old(self).track(n2),
    {
        let ghost pre = *old(self);
        let found = self.find_index(self.current_animation.as_str());
        let k: usize = match found {
            Some(k) => k,
            None => {
                proof {
                    assert(false);
                }
                0
            },
        };
        proof {
            lemma_interpolated_index_is(pre, pre.selected(), k as int);
            assert(pre.track_at(k as int).wf());
        }
        let mut entry = self.animations.remove(k);
        proof {
            assert(entry == pre.animations@[k as int]);
            assert(entry.1 == pre.track_at(k as int));
        }
        entry.1.reset();
        self.animations.insert(k, entry);
        proof {
            assert(self.animations@ =~= pre.animations@.update(k as int, (entry.0, entry.1)));
            assert forall|i: int|
                0 <= i < self.names().len() implies self.names()[i] == pre.names()[i] by {
                assert(self.names()[i] == self.animations@[i].0@);
                assert(pre.names()[i] == pre.animations@[i].0@);
                if i != k {
                    assert(self.animations@[i] == pre.animations@[i]);
                }
            }
            assert(self.names() =~= pre.names());
            assert(self.track_at(k as int) == entry.1);
            assert forall|i: int|
                0 <= i < self.animations@.len() && i != k implies self.track_at(i)
                == pre.track_at(i) by {
                assert(self.animations@[i] == pre.animations@[i]);
            }
            assert forall|i: int, j: int|
                0 <= i < j < self.names().len() implies self.names()[i] != self.names()[j] by {
                assert(pre.names()[i] != pre.names()[j]);
            }
            assert forall|i: int|
                0 <= i < self.names().len() implies (#[trigger] self.track_at(i)).wf() by {
                if i != k {
                    assert(self.track_at(i) == pre.track_at(i));
                    assert(pre.track_at(i).wf());
                }
            }
            lemma_interpolated_index_is(*self, pre.selected(), k as int);
            assert forall|n2: Seq<char>| final(self).has_track(n2) == pre.has_track(n2) by {
                lemma_interpolated_same_names_has(*self, pre, n2);
            }
            assert forall|n2: Seq<char>|
                n2 != pre.selected() && pre.has_track(n2) implies final(self).track(n2)
                == pre.track(n2) by {
                let i = choose|i: int| 0 <= i < pre.names().len() && pre.names()[i] == n2;
                lemma_interpolated_index_is(pre, n2, i);
                lemma_interpolated_index_is(*self, n2, i);
                assert(i != k);
                assert(self.track_at(i) == pre.track_at(i));
            }
        }
    }

    /// Whether the selected track reached its terminal frame on the most
    /// recent `update` call forwarded to it.
    pub fn finished(&self) -> (result: bool)
        requires
            self.wf(),
            self.has_track(self.selected()),
        ensures
            result == self.track(self.selected()).cursor().finished,
    {
        let found = self.find_index(self.current_animation.as_str());
        let k: usize = match found {
            Some(k) => k,
            None => {
                proof {
                    assert(false);
                }
                0
            },
        };
        proof {
            lemma_interpolated_index_is(*self, self.selected(), k as int);
            assert(self.animations@[k as int].1 == self.track_at(k as int));
        }
        self.animations[k].1.is_finished()
    }

    /// The value currently shown by the selected track: its current
    /// authored value, blended toward the next one inside the blend window.
    pub fn get_frame(&self) -> (result: T)
        requires
            self.wf(),
            self.has_track(self.selected()),
        ensures
            result == self.track(self.selected()).current_value(),
    {
        let found = self.find_index(self.current_animation.as_str());
        let k: usize = match found {
            Some(k) => k,
            None => {
                proof {
                    assert(false);
                }
                0
            },
        };
        proof {
            lemma_interpolated_index_is(*self, self.selected(), k as int);
            assert(self.animations@[k as int].1 == self.track_at(k as int));
            assert(self.track_at(k as int).wf());
        }
        self.animations[k].1.get_frame()
    }
}

/// Under pairwise-distinct names, the position of a stored name is the one
/// index where the name occurs.
proof fn lemma_interpolated_index_is<T: Interpolatable + Copy>(m: InterpolatedAnimationManager<T>, name: Seq<char>, i: int)
    requires
        forall|p: int, q: int| 0 <= p < q < m.names().len() ==> m.names()[p] != m.names()[q],
        0 <= i < m.names().len(),
        m.names()[i] == name,
    ensures
        m.has_track(name),
        m.index_of(name) == i,
{
    assert(m.has_track(name));
    let w = m.index_of(name);
    assert(0 <= w < m.names().len() && m.names()[w] == name);
    if w != i {
        if w < i {
            assert(m.names()[w] != m.names()[i]);
        } else {
            assert(m.names()[i] != m.names()[w]);
        }
    }
}

/// Two managers with the same stored names hold tracks under the same names.
proof fn lemma_interpolated_same_names_has<T: Interpolatable + Copy>(
    a: InterpolatedAnimationManager<T>,
    b: InterpolatedAnimationManager<T>,
    name: Seq<char>,
)
    requires
        a.names() == b.names(),
    ensures
        a.has_track(name) == b.has_track(name),
{
    if a.has_track(name) {
        let i = choose|i: int| 0 <= i < a.names().len() && a.names()[i] == name;
        assert(b.names()[i] == name);
        assert(b.has_track(name));
    }
    if b.has_track(name) {
        let i = choose|i: int| 0 <= i < b.names().len() && b.names()[i] == name;
        assert(a.names()[i] == name);
        assert(a.has_track(name));
    }
}


} // verus!
