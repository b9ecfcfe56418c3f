use vstd::prelude::*;

verus! {

/// The lowest score that earns a place on the honor roll.
pub const HONOR_MIN: i32 = 85;

/// The lowest score that earns an `A`.
pub const GRADE_A_MIN: i32 = 90;

/// A user with a score.
#[derive(Debug)]
pub struct User {
    pub id: i32,
    pub name: String,
    pub score: i32,
}

/// The grade of an honor-roll score.
#[derive(Debug, PartialEq, Eq, Structural, Clone, Copy)]
pub enum Grade {
    A,
    B,
}

impl Grade {
    /// The grade's letter.
    pub fn letter(self) -> (r: char)
        ensures
            r == (match self {
                Grade::A => 'A',
                Grade::B => 'B',
            }),
    {
        match self {
            Grade::A => 'A',
            Grade::B => 'B',
        }
    }
}

/// A user's place on the honor roll.
#[derive(Debug)]
pub struct Standing {
    pub name: String,
    pub grade: Grade,
    pub score: i32,
}

/// The grade of a score that is on the honor roll.
pub open spec fn grade_spec(score: i32) -> Grade {
    if score >= GRADE_A_MIN {
        Grade::A
    } else {
        Grade::B
    }
}

/// A user's standing, if the score is high enough for the honor roll.
pub open spec fn standing_of(u: User) -> Option<Standing> {
    if u.score >= HONOR_MIN {
        Some(Standing { name: u.name, grade: grade_spec(u.score), score: u.score })
    } else {
        None
    }
}

/// The grade of a score, or `None` when the score is below the honor roll.
pub fn grade_of(score: i32) -> (r: Option<Grade>)
    ensures
        r == (if score >= HONOR_MIN {
            Some(grade_spec(score))
        } else {
            None
        }),
{
    if score < HONOR_MIN {
        None
    } else if score >= GRADE_A_MIN {
        Some(Grade::A)
    } else {
        Some(Grade::B)
    }
}

/// The honor roll of `users`: each user whose score reaches the bar, graded, in
/// the order given.
pub fn honor_roll(users: Vec<User>) -> (r: Vec<Standing>)
    ensures
        r@ == users@.filter_map(|u: User| standing_of(u)),
{
    let ghost all = users@;
    let n = users.len();
    let mut rest = users;
    let mut r: Vec<Standing> = Vec::new();
    let mut i: usize = 0;
    proof {
        assert(all.take(0) =~= Seq::<User>::empty());
        assert(all.take(0).filter_map(|u: User| standing_of(u)) =~= Seq::<Standing>::empty());
    }
    while i < n
        invariant
            n == all.len(),
            i <= n,
            rest@ == all.skip(i as int),
            r@ == all.take(i as int).filter_map(|u: User| standing_of(u)),
        decreases n - i,
    {
        let u = rest.remove(0);
        proof {
            assert(u == all[i as int]);
            all.lemma_filter_map_take_succ(|u: User| standing_of(u), i as int);
        }
        match grade_of(u.score) {
            Some(grade) => {
                let score = u.score;
                r.push(Standing { name: u.name, grade, score });
            },
            None => {},
        }
        i = i + 1;
        proof {
            assert(rest@ =~= all.skip(i as int));
            assert(r@ =~= all.take(i as int).filter_map(|u: User| standing_of(u)));
        }
    }
    proof {
        assert(all.take(n as int) =~= all);
    }
    r
}

} // verus!
