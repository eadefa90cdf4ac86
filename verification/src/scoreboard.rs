//! The cross-session win tally: one entry per player name, kept sorted by
//! wins with the most wins first. Recording a win bumps (or creates) the
//! name's entry; recording a loss only creates a zero-win entry for a name
//! never seen before.

use vstd::prelude::*;

use crate::game::{clone_chars, eq_chars};

verus! {

/// One row of the scoreboard.
pub struct PlayerScore {
    pub name: Vec<char>,
    pub wins: usize,
}

/// The model of a row: the name and win count as plain values.
#[verifier::ext_equal]
pub struct ScoreView {
    pub name: Seq<char>,
    pub wins: nat,
}

impl View for PlayerScore {
    type V = ScoreView;

    open spec fn view(&self) -> ScoreView {
        ScoreView { name: self.name@, wins: self.wins as nat }
    }
}

/// The win tally.
pub struct Scoreboard {
    pub players: Vec<PlayerScore>,
}

/// The rows' models, in board order.
pub open spec fn views_of(players: Seq<PlayerScore>) -> Seq<ScoreView> {
    players.map_values(|p: PlayerScore| p@)
}

impl View for Scoreboard {
    type V = Seq<ScoreView>;

    open spec fn view(&self) -> Seq<ScoreView> {
        views_of(self.players@)
    }
}

/// Entries appear with the most wins first.
pub open spec fn sorted_desc(s: Seq<ScoreView>) -> bool {
    forall|i: int, j: int| 0 <= i <= j < s.len() ==> s[i].wins >= s[j].wins
}

/// Some entry carries this name.
pub open spec fn has_name(s: Seq<ScoreView>, name: Seq<char>) -> bool {
    exists|i: int| 0 <= i < s.len() && s[i].name == name
}

/// No two entries share a name.
pub open spec fn distinct_names(s: Seq<ScoreView>) -> bool {
    forall|i: int, j: int| 0 <= i < j < s.len() ==> s[i].name != s[j].name
}

/// The scoreboard invariant: sorted by wins descending, one entry per name.
pub open spec fn board_wf(s: Seq<ScoreView>) -> bool {
    sorted_desc(s) && distinct_names(s)
}

/// The index of the entry with this name (meaningful when `has_name` holds
/// and names are distinct).
pub open spec fn idx_of(s: Seq<ScoreView>, name: Seq<char>) -> int {
    choose|i: int| 0 <= i < s.len() && s[i].name == name
}

/// The win count recorded for this name.
pub open spec fn wins_of(s: Seq<ScoreView>, name: Seq<char>) -> nat {
    s[idx_of(s, name)].wins
}

/// Where a new entry with `w` wins lands: right before the first entry with
/// fewer wins, at the end when there is none.
pub open spec fn insert_pos(s: Seq<ScoreView>, w: nat) -> int
    decreases s.len(),
{
    if s.len() == 0 {
        0
    } else if s[0].wins < w {
        0
    } else {
        1 + insert_pos(s.subrange(1, s.len() as int), w)
    }
}

/// A board with `e` inserted at its sorted position.
pub open spec fn place(s: Seq<ScoreView>, e: ScoreView) -> Seq<ScoreView> {
    s.insert(insert_pos(s, e.wins), e)
}

/// The board after a win is recorded for `name`: its entry bumped by one,
/// or a fresh one-win entry, re-placed in sorted position.
pub open spec fn spec_update(s: Seq<ScoreView>, name: Seq<char>) -> Seq<ScoreView> {
    if has_name(s, name) {
        let i = idx_of(s, name);
        place(s.remove(i), ScoreView { name, wins: (s[i].wins + 1) as nat })
    } else {
        place(s, ScoreView { name, wins: 1nat })
    }
}

/// The board after a loss is recorded for `name`: unchanged when the name is
/// already on the board, else a fresh zero-win entry in sorted position.
pub open spec fn spec_update_lost(s: Seq<ScoreView>, name: Seq<char>) -> Seq<ScoreView> {
    if has_name(s, name) {
        s
    } else {
        place(s, ScoreView { name, wins: 0nat })
    }
}

/// The insert position splits the board: entries before it have at least
/// `w` wins, the entry at it (when any) fewer.
pub proof fn lemma_insert_pos_props(s: Seq<ScoreView>, w: nat)
    ensures
        0 <= insert_pos(s, w) <= s.len(),
        forall|k: int| 0 <= k < insert_pos(s, w) ==> s[k].wins >= w,
        insert_pos(s, w) < s.len() ==> s[insert_pos(s, w)].wins < w,
    decreases s.len(),
{
    if s.len() == 0 {
    } else if s[0].wins < w {
    } else {
        let tail = s.subrange(1, s.len() as int);
        lemma_insert_pos_props(tail, w);
        assert forall|k: int| 0 <= k < insert_pos(s, w) implies s[k].wins >= w by {
            if k > 0 {
                assert(tail[k - 1] == s[k]);
            }
        };
        if insert_pos(s, w) < s.len() {
            assert(tail[insert_pos(tail, w)] == s[insert_pos(s, w)]);
        }
    }
}

/// Placing a fresh name keeps the board well-formed and adds its entry.
pub proof fn lemma_place_preserves_wf(s: Seq<ScoreView>, e: ScoreView)
    requires
        board_wf(s),
        !has_name(s, e.name),
    ensures
        board_wf(place(s, e)),
        place(s, e).len() == s.len() + 1,
        has_name(place(s, e), e.name),
        place(s, e)[insert_pos(s, e.wins)] == e,
{
    lemma_insert_pos_props(s, e.wins);
    let p = insert_pos(s, e.wins);
    let t = place(s, e);
    assert forall|i: int, j: int| 0 <= i <= j < t.len() implies t[i].wins >= t[j].wins by {
        if i < p && j < p {
            assert(t[i] == s[i] && t[j] == s[j]);
        } else if i < p && j == p {
            assert(t[i] == s[i] && t[j] == e);
        } else if i < p && j > p {
            assert(t[i] == s[i] && t[j] == s[j - 1]);
        } else if i == p && j > p {
            assert(t[j] == s[j - 1]);
            assert(s[p].wins < e.wins);
            assert(s[p].wins >= s[j - 1].wins);
        } else if i > p && j > p {
            assert(t[i] == s[i - 1] && t[j] == s[j - 1]);
        }
    };
    assert forall|i: int, j: int| 0 <= i < j < t.len() implies t[i].name != t[j].name by {
        if i != p && j != p {
            let si = if i < p {
                i
            } else {
                i - 1
            };
            let sj = if j < p {
                j
            } else {
                j - 1
            };
            assert(t[i] == s[si] && t[j] == s[sj]);
        } else if i == p {
            assert(t[j] == s[j - 1]);
            assert(!(s[j - 1].name == e.name));
        } else {
            assert(t[i] == s[i]);
            assert(!(s[i].name == e.name));
        }
    };
    assert(t[p] == e);
}

/// Removing an entry keeps the board well-formed, and removes its name
/// entirely (names being distinct).
pub proof fn lemma_remove_preserves_wf(s: Seq<ScoreView>, i: int)
    requires
        board_wf(s),
        0 <= i < s.len(),
    ensures
        board_wf(s.remove(i)),
        !has_name(s.remove(i), s[i].name),
{
    let t = s.remove(i);
    assert forall|k: int| 0 <= k < t.len() implies t[k].name != s[i].name by {
        if k < i {
            assert(t[k] == s[k]);
        } else {
            assert(t[k] == s[k + 1]);
        }
    };
    assert forall|a: int, b: int| 0 <= a <= b < t.len() implies t[a].wins >= t[b].wins by {
        let sa = if a < i {
            a
        } else {
            a + 1
        };
        let sb = if b < i {
            b
        } else {
            b + 1
        };
        assert(t[a] == s[sa] && t[b] == s[sb]);
    };
    assert forall|a: int, b: int| 0 <= a < b < t.len() implies t[a].name != t[b].name by {
        let sa = if a < i {
            a
        } else {
            a + 1
        };
        let sb = if b < i {
            b
        } else {
            b + 1
        };
        assert(t[a] == s[sa] && t[b] == s[sb]);
    };
}

/// With distinct names, an index holding the name is the index of the name.
pub proof fn lemma_idx_of_unique(s: Seq<ScoreView>, name: Seq<char>, i: int)
    requires
        distinct_names(s),
        0 <= i < s.len(),
        s[i].name == name,
    ensures
        idx_of(s, name) == i,
        wins_of(s, name) == s[i].wins,
{
    assert(has_name(s, name));
    let j = idx_of(s, name);
    assert(0 <= j < s.len() && s[j].name == name);
    if i < j {
        assert(s[i].name != s[j].name);
    } else if j < i {
        assert(s[j].name != s[i].name);
    }
}

/// Recording a win keeps the board well-formed and leaves the name on it.
pub proof fn lemma_update_preserves_wf(s: Seq<ScoreView>, name: Seq<char>)
    requires
        board_wf(s),
    ensures
        board_wf(spec_update(s, name)),
        has_name(spec_update(s, name), name),
{
    if has_name(s, name) {
        let i = idx_of(s, name);
        assert(0 <= i < s.len() && s[i].name == name);
        lemma_remove_preserves_wf(s, i);
        lemma_place_preserves_wf(
            s.remove(i),
            ScoreView { name, wins: (s[i].wins + 1) as nat },
        );
    } else {
        lemma_place_preserves_wf(s, ScoreView { name, wins: 1nat });
    }
}

/// Recording a loss keeps the board well-formed and leaves the name on it.
pub proof fn lemma_update_lost_preserves_wf(s: Seq<ScoreView>, name: Seq<char>)
    requires
        board_wf(s),
    ensures
        board_wf(spec_update_lost(s, name)),
        has_name(spec_update_lost(s, name), name),
{
    if !has_name(s, name) {
        lemma_place_preserves_wf(s, ScoreView { name, wins: 0nat });
    }
}

/// A win for a brand-new name yields a one-win entry; a second win for the
/// same name makes it a two-win entry, and the descending order places it
/// at or before every entry with fewer wins.
pub proof fn lemma_update_new_name_twice(s: Seq<ScoreView>, name: Seq<char>)
    requires
        board_wf(s),
        !has_name(s, name),
    ensures
        ({
            let s1 = spec_update(s, name);
            let s2 = spec_update(s1, name);
            &&& board_wf(s1) && has_name(s1, name) && wins_of(s1, name) == 1
            &&& s1.len() == s.len() + 1
            &&& board_wf(s2) && has_name(s2, name) && wins_of(s2, name) == 2
            &&& s2.len() == s.len() + 1
            &&& forall|j: int| 0 <= j < s2.len() && s2[j].wins < 2 ==> idx_of(s2, name) <= j
        }),
{
    let e1 = ScoreView { name, wins: 1nat };
    let s1 = spec_update(s, name);
    lemma_place_preserves_wf(s, e1);
    let p1 = insert_pos(s, 1nat);
    lemma_insert_pos_props(s, 1nat);
    lemma_idx_of_unique(s1, name, p1);
    assert(wins_of(s1, name) == 1);

    let i1 = idx_of(s1, name);
    lemma_remove_preserves_wf(s1, i1);
    let e2 = ScoreView { name, wins: 2nat };
    lemma_place_preserves_wf(s1.remove(i1), e2);
    let s2 = spec_update(s1, name);
    assert(s2 == place(s1.remove(i1), e2));
    let p2 = insert_pos(s1.remove(i1), 2nat);
    lemma_insert_pos_props(s1.remove(i1), 2nat);
    lemma_idx_of_unique(s2, name, p2);
    assert(wins_of(s2, name) == 2);
    assert forall|j: int| 0 <= j < s2.len() && s2[j].wins < 2 implies idx_of(s2, name) <= j by {
        if j < idx_of(s2, name) {
            assert(s2[j].wins >= s2[idx_of(s2, name)].wins);
        }
    };
}

/// A loss for a brand-new name yields a zero-win entry; recording another
/// loss for that name changes nothing: the count stays zero and no second
/// entry appears.
pub proof fn lemma_update_lost_new_name_twice(s: Seq<ScoreView>, name: Seq<char>)
    requires
        board_wf(s),
        !has_name(s, name),
    ensures
        ({
            let s1 = spec_update_lost(s, name);
            &&& board_wf(s1) && has_name(s1, name) && wins_of(s1, name) == 0
            &&& s1.len() == s.len() + 1
            &&& spec_update_lost(s1, name) == s1
        }),
{
    let e = ScoreView { name, wins: 0nat };
    lemma_place_preserves_wf(s, e);
    let s1 = spec_update_lost(s, name);
    lemma_insert_pos_props(s, 0nat);
    lemma_idx_of_unique(s1, name, insert_pos(s, 0nat));
}

/// A board whose every neighbouring pair is in order is sorted throughout.
pub proof fn lemma_adjacent_sorted(s: Seq<ScoreView>, i: int, j: int)
    requires
        forall|k: int| 0 <= k < s.len() - 1 ==> (#[trigger] s[k].wins) >= s[k + 1].wins,
        0 <= i <= j < s.len(),
    ensures
        s[i].wins >= s[j].wins,
    decreases j - i,
{
    if i < j {
        lemma_adjacent_sorted(s, i, j - 1);
        assert(s[j - 1].wins >= s[j].wins);
    }
}

impl Scoreboard {
    /// Does the board satisfy its invariant?
    pub open spec fn well_formed(&self) -> bool {
        board_wf(self@)
    }

    /// Decide the board invariant by computation, for boards that arrive
    /// from outside (a loaded scoreboard file).
    pub fn check_well_formed(&self) -> (r: bool)
        ensures
            r == self.well_formed(),
    {
        let n = self.players.len();
        if n > 0 {
            let mut i: usize = 0;
            while i < n - 1
                invariant
                    n == self.players.len(),
                    n > 0,
                    i <= n - 1,
                    forall|k: int| 0 <= k < i ==> (#[trigger] self@[k].wins) >= self@[k + 1].wins,
                decreases n - i,
            {
                if self.players[i].wins < self.players[i + 1].wins {
                    proof {
                        assert(self@[i as int].wins < self@[i as int + 1].wins);
                    }
                    return false;
                }
                i += 1;
            }
        }
        proof {
            assert forall|a: int, b: int| 0 <= a <= b < self@.len() implies self@[a].wins
                >= self@[b].wins by {
                lemma_adjacent_sorted(self@, a, b);
            };
        }
        let mut a: usize = 0;
        while a < n
            invariant
                n == self.players.len(),
                a <= n,
                forall|x: int, y: int| 0 <= x < y < n && x < a ==> self@[x].name != self@[y].name,
            decreases n - a,
        {
            let mut b = a + 1;
            while b < n
                invariant
                    n == self.players.len(),
                    a < b <= n,
                    a < n,
                    forall|y: int| a < y < b ==> self@[a as int].name != self@[y].name,
                decreases n - b,
            {
                if eq_chars(&self.players[a].name, &self.players[b].name) {
                    proof {
                        assert(self@[a as int].name == self@[b as int].name);
                    }
                    return false;
                }
                b += 1;
            }
            a += 1;
        }
        true
    }

    /// An empty scoreboard.
    pub fn new() -> (sb: Scoreboard)
        ensures
            sb@ == Seq::<ScoreView>::empty(),
            sb.well_formed(),
    {
        let sb = Scoreboard { players: Vec::new() };
        proof {
            assert(sb@ =~= Seq::<ScoreView>::empty());
        }
        sb
    }

    /// The index of the entry carrying `name`, when there is one.
    fn find(&self, name: &Vec<char>) -> (r: Option<usize>)
        ensures
            match r {
                Some(i) => 0 <= i < self@.len() && self@[i as int].name == name@,
                None => !has_name(self@, name@),
            },
    {
        let mut i: usize = 0;
        while i < self.players.len()
            invariant
                i <= self.players.len(),
                forall|k: int| 0 <= k < i ==> self@[k].name != name@,
            decreases self.players.len() - i,
        {
            if eq_chars(&self.players[i].name, name) {
                return Some(i);
            }
            i += 1;
        }
        None
    }

    /// Is `name` already on the board?
    pub fn contains_name(&self, name: &Vec<char>) -> (r: bool)
        ensures
            r == has_name(self@, name@),
    {
        match self.find(name) {
            Some(_) => true,
            None => false,
        }
    }

    /// Insert an entry right before the first one with fewer wins.
    fn insert_sorted(&mut self, p: PlayerScore)
        ensures
            final(self)@ == place(old(self)@, p@),
    {
        let w = p.wins;
        let mut i: usize = 0;
        while i < self.players.len() && self.players[i].wins >= w
            invariant
                i <= self.players.len(),
                *self == *old(self),
                forall|k: int| 0 <= k < i ==> self@[k].wins >= w as nat,
            decreases self.players.len() - i,
        {
            i += 1;
        }
        proof {
            lemma_insert_pos_props(self@, w as nat);
            let pos = insert_pos(self@, w as nat);
            if pos < i {
                assert(self@[pos].wins >= w as nat);
            }
            if (i as int) < pos {
                assert(self@[i as int].wins >= w as nat);
            }
            assert(i as int == pos);
        }
        self.players.insert(i, p);
        proof {
            assert(self@ =~= place(old(self)@, p@));
        }
    }

    /// Record a win for `name`: bump its entry, or create a one-win entry,
    /// and keep the board sorted with the most wins first.
    pub fn update(&mut self, name: &Vec<char>)
        requires
            old(self).well_formed(),
            forall|i: int|
                0 <= i < old(self)@.len() && (#[trigger] old(self)@[i].name) == name@
                    ==> old(self)@[i].wins < usize::MAX,
        ensures
            final(self)@ == spec_update(old(self)@, name@),
            final(self).well_formed(),
    {
        proof {
            lemma_update_preserves_wf(old(self)@, name@);
        }
        match self.find(name) {
            Some(i) => {
                proof {
                    lemma_idx_of_unique(self@, name@, i as int);
                }
                let e = self.players.remove(i);
                proof {
                    assert(self@ =~= old(self)@.remove(i as int));
                }
                let bumped = PlayerScore { name: e.name, wins: e.wins + 1 };
                self.insert_sorted(bumped);
            },
            None => {
                self.insert_sorted(PlayerScore { name: clone_chars(name), wins: 1 });
            },
        }
    }

    /// Record a loss for `name`: a brand-new name gets a zero-win entry; a
    /// name already on the board is left exactly as it was.
    pub fn update_lost(&mut self, name: &Vec<char>)
        requires
            old(self).well_formed(),
        ensures
            final(self)@ == spec_update_lost(old(self)@, name@),
            final(self).well_formed(),
    {
        proof {
            lemma_update_lost_preserves_wf(old(self)@, name@);
        }
        match self.find(name) {
            Some(_) => {
            },
            None => {
                self.insert_sorted(PlayerScore { name: clone_chars(name), wins: 0 });
            },
        }
    }
}

} // verus!
