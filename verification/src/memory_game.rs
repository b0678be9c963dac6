//! The turn-based recitation game: each turn's number is the gap (in turns)
//! since the previous turn's number was last spoken, or 0 if it had never
//! been spoken before.

use vstd::prelude::*;
use std::collections::HashMap;

verus! {

broadcast use vstd::std_specs::hash::group_hash_axioms;

/// The one failure of the game: the requested turn count stops before the
/// seed sequence ends.
#[derive(Debug, PartialEq, Eq, Structural, Clone, Copy)]
pub enum GameError {
    InvalidArgument,
}

/// The largest index of `p` that holds `v`, or `-1` if `v` does not occur.
pub open spec fn last_occurrence(p: Seq<int>, v: int) -> int
    decreases p.len(),
{
    if p.len() == 0 {
        -1
    } else if p.last() == v {
        p.len() - 1
    } else {
        last_occurrence(p.drop_last(), v)
    }
}

/// The first `n` numbers spoken in the game seeded with `seed`: the seed
/// itself at turns `0 .. seed.len()`, and from then on at each turn the gap
/// since the previous turn's number was last spoken before that turn, or 0
/// if it had not been spoken before.
pub open spec fn spoken_prefix(seed: Seq<u32>, n: nat) -> Seq<int>
    decreases n,
{
    if n == 0 {
        Seq::empty()
    } else if n <= seed.len() {
        spoken_prefix(seed, (n - 1) as nat).push(seed[n - 1] as int)
    } else {
        let p = spoken_prefix(seed, (n - 1) as nat);
        let x = p.last();
        let j = last_occurrence(p.drop_last(), x);
        let next = if j >= 0 { n - 2 - j } else { 0 };
        p.push(next)
    }
}

pub proof fn lemma_spoken_prefix_len(seed: Seq<u32>, n: nat)
    ensures
        spoken_prefix(seed, n).len() == n,
    decreases n,
{
    if n > 0 {
        lemma_spoken_prefix_len(seed, (n - 1) as nat);
    }
}

pub proof fn lemma_last_occurrence_range(p: Seq<int>, v: int)
    ensures
        -1 <= last_occurrence(p, v) < p.len(),
        last_occurrence(p, v) >= 0 ==> p[last_occurrence(p, v)] == v,
    decreases p.len(),
{
    if p.len() > 0 && p.last() != v {
        lemma_last_occurrence_range(p.drop_last(), v);
    }
}

/// Everything the game promises of a result `r` computed for `seed` and
/// `n_turns`: the error comes exactly when the turn count stops before the
/// seed ends, and otherwise the result is the number the model says is
/// spoken at the final turn.
pub open spec fn play_game_post(seed: Seq<u32>, n_turns: u32, r: Result<u32, GameError>) -> bool {
    &&& (r is Err <==> (n_turns as int) < seed.len())
    &&& (r is Err ==> r == Err::<u32, GameError>(GameError::InvalidArgument))
    &&& (r matches Ok(w) ==> w as int == spoken_prefix(seed, n_turns as nat).last())
}

/// The number spoken at the final turn (turn `n_turns_to_take - 1`,
/// 0-based) of the recitation game seeded with `game_input`, or
/// `InvalidArgument` when `n_turns_to_take` stops before the seed ends.
pub fn play_game(game_input: &Vec<u32>, n_turns_to_take: u32) -> (r: Result<u32, GameError>)
    requires
        game_input@.len() >= 1,
    ensures
        play_game_post(game_input@, n_turns_to_take, r),
        n_turns_to_take as int == game_input@.len() ==> r == Ok::<u32, GameError>(
            game_input@.last(),
        ),
{
    let ghost seed = game_input@;
    let len = game_input.len();
    if (n_turns_to_take as usize) < len {
        return Err(GameError::InvalidArgument);
    }
    let n = n_turns_to_take as usize;

    let mut history: HashMap<u32, u32> = HashMap::new();
    let mut i: usize = 0;
    while i < len - 1
        invariant
            seed == game_input@,
            1 <= len == seed.len(),
            len <= n <= u32::MAX,
            0 <= i <= len - 1,
            forall|v: u32| #[trigger]
                history@.contains_key(v) <==> last_occurrence(
                    spoken_prefix(seed, i as nat),
                    v as int,
                ) >= 0,
            forall|v: u32|
                history@.contains_key(v) ==> #[trigger] history@[v] as int == last_occurrence(
                    spoken_prefix(seed, i as nat),
                    v as int,
                ),
        decreases len - i,
    {
        let w = game_input[i];
        history.insert(w, i as u32);
        proof {
            let p_old = spoken_prefix(seed, i as nat);
            let p_new = spoken_prefix(seed, (i + 1) as nat);
            lemma_spoken_prefix_len(seed, i as nat);
            lemma_spoken_prefix_len(seed, (i + 1) as nat);
            assert(p_new == p_old.push(seed[i as int] as int));
            assert(p_new.drop_last() =~= p_old);
            assert forall|v: u32|
                #[trigger] history@.contains_key(v) <==> last_occurrence(
                    p_new,
                    v as int,
                ) >= 0 by {
                assert(last_occurrence(p_new, v as int) == if p_new.last() == v as int {
                    p_new.len() - 1
                } else {
                    last_occurrence(p_new.drop_last(), v as int)
                });
            }
            assert forall|v: u32| history@.contains_key(v) implies #[trigger] history@[v] as int
                == last_occurrence(p_new, v as int) by {
                assert(last_occurrence(p_new, v as int) == if p_new.last() == v as int {
                    p_new.len() - 1
                } else {
                    last_occurrence(p_new.drop_last(), v as int)
                });
            }
        }
        i = i + 1;
    }

    let mut last: u32 = game_input[len - 1];
    proof {
        lemma_spoken_prefix_len(seed, (len - 1) as nat);
        assert(spoken_prefix(seed, len as nat) == spoken_prefix(seed, (len - 1) as nat).push(
            seed[len - 1] as int,
        ));
    }
    let mut t: usize = len;
    while t < n
        invariant
            seed == game_input@,
            1 <= len == seed.len(),
            len <= t <= n <= u32::MAX,
            last as int == spoken_prefix(seed, t as nat).last(),
            forall|v: u32| #[trigger]
                history@.contains_key(v) <==> last_occurrence(
                    spoken_prefix(seed, (t - 1) as nat),
                    v as int,
                ) >= 0,
            forall|v: u32|
                history@.contains_key(v) ==> #[trigger] history@[v] as int == last_occurrence(
                    spoken_prefix(seed, (t - 1) as nat),
                    v as int,
                ),
        decreases n - t,
    {
        let ghost p = spoken_prefix(seed, t as nat);
        let ghost q = spoken_prefix(seed, (t - 1) as nat);
        proof {
            lemma_spoken_prefix_len(seed, t as nat);
            lemma_spoken_prefix_len(seed, (t - 1) as nat);
            if t == len {
                assert(p == q.push(seed[t - 1] as int));
            } else {
                assert(p == q.push(
                    {
                        let j = last_occurrence(q.drop_last(), q.last());
                        if j >= 0 {
                            t - 2 - j
                        } else {
                            0
                        }
                    },
                ));
            }
            assert(p.drop_last() =~= q);
            lemma_last_occurrence_range(q, last as int);
        }
        let prev = last;
        let next: u32;
        if history.contains_key(&prev) {
            let j = *history.get(&prev).unwrap();
            next = (t - 1) as u32 - j;
        } else {
            next = 0;
        }
        history.insert(prev, (t - 1) as u32);
        proof {
            let p_next = spoken_prefix(seed, (t + 1) as nat);
            lemma_spoken_prefix_len(seed, (t + 1) as nat);
            assert(p_next == p.push(
                {
                    let j = last_occurrence(p.drop_last(), p.last());
                    if j >= 0 {
                        t - 1 - j
                    } else {
                        0
                    }
                },
            ));
            assert(p_next.drop_last() =~= p);
            assert(next as int == p_next.last());
            assert forall|v: u32|
                #[trigger] history@.contains_key(v) <==> last_occurrence(p, v as int) >= 0 by {
                assert(last_occurrence(p, v as int) == if p.last() == v as int {
                    p.len() - 1
                } else {
                    last_occurrence(p.drop_last(), v as int)
                });
            }
            assert forall|v: u32| history@.contains_key(v) implies #[trigger] history@[v] as int
                == last_occurrence(p, v as int) by {
                assert(last_occurrence(p, v as int) == if p.last() == v as int {
                    p.len() - 1
                } else {
                    last_occurrence(p.drop_last(), v as int)
                });
            }
        }
        last = next;
        t = t + 1;
    }
    Ok(last)
}

/// The game is a pure function of its inputs: any two results that the
/// game's contract allows for the same seed and the same turn count are
/// equal.
pub proof fn lemma_play_game_deterministic(
    seed: Seq<u32>,
    n_turns: u32,
    r1: Result<u32, GameError>,
    r2: Result<u32, GameError>,
)
    requires
        play_game_post(seed, n_turns, r1),
        play_game_post(seed, n_turns, r2),
    ensures
        r1 == r2,
{
    if (n_turns as int) < seed.len() {
        assert(r1 is Err && r2 is Err);
    } else {
        match (r1, r2) {
            (Ok(w1), Ok(w2)) => {
                assert(w1 as int == w2 as int);
            },
            _ => {
                assert(false);
            },
        }
    }
}

} // verus!
