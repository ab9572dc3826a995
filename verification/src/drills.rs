use vstd::prelude::*;

use rand::rngs::ThreadRng;
use rand::seq::IndexedRandom;

verus! {

#[verifier::external_type_specification]
#[verifier::external_body]
pub struct ExThreadRng(ThreadRng);

/// The practice texts offered in training mode, in order.
pub open spec fn drill_texts() -> Seq<Seq<char>> {
    seq![
        "The quick brown fox jumps over the lazy dog while the calm river flows past five keen developers."@,
        "let total = items.iter().filter(|i| i.active).map(|i| i.price).sum::<f64>();"@,
        "if err := validate(input); err != nil {\n    return fmt.Errorf(\"invalid input: %w\", err)\n}"@,
        "Success is not final, failure is not fatal: it is the courage to continue that counts."@,
        "def solve(nums):\n    return sorted(n * n for n in nums if n > 0)[-3:]\nprint(solve([-4, -1, 0, 3, 10]))"@,
        "git commit -m \"fix: handle empty payload in webhook parser\" && git push origin main"@,
        "A journey of a thousand miles begins with a single step, and every keystroke brings you closer to mastery."@,
        "SELECT u.name, COUNT(o.id) AS orders FROM users u LEFT JOIN orders o ON o.user_id = u.id GROUP BY u.name HAVING COUNT(o.id) > 5;"@,
    ]
}

pub open spec fn strings_view(v: Seq<String>) -> Seq<Seq<char>> {
    v.map_values(|s: String| s@)
}

/// Short practice texts for training mode.
pub fn drill_presets() -> (drills: Vec<String>)
    ensures
        strings_view(drills@) == drill_texts(),
{
    let mut drills: Vec<String> = Vec::new();
    drills.push(
        String::from_str(
            "The quick brown fox jumps over the lazy dog while the calm river flows past five keen developers.",
        ),
    );
    drills.push(
        String::from_str(
            "let total = items.iter().filter(|i| i.active).map(|i| i.price).sum::<f64>();",
        ),
    );
    drills.push(
        String::from_str(
            "if err := validate(input); err != nil {\n    return fmt.Errorf(\"invalid input: %w\", err)\n}",
        ),
    );
    drills.push(
        String::from_str(
            "Success is not final, failure is not fatal: it is the courage to continue that counts.",
        ),
    );
    drills.push(
        String::from_str(
            "def solve(nums):\n    return sorted(n * n for n in nums if n > 0)[-3:]\nprint(solve([-4, -1, 0, 3, 10]))",
        ),
    );
    drills.push(
        String::from_str(
            "git commit -m \"fix: handle empty payload in webhook parser\" && git push origin main",
        ),
    );
    drills.push(
        String::from_str(
            "A journey of a thousand miles begins with a single step, and every keystroke brings you closer to mastery.",
        ),
    );
    drills.push(
        String::from_str(
            "SELECT u.name, COUNT(o.id) AS orders FROM users u LEFT JOIN orders o ON o.user_id = u.id GROUP BY u.name HAVING COUNT(o.id) > 5;",
        ),
    );
    proof {
        assert(strings_view(drills@) =~= drill_texts());
    }
    drills
}

/// A uniformly random element of `items`, cloned (`IndexedRandom::choose` on
/// the slice, then `Option::cloned`): `None` exactly when `items` is empty,
/// otherwise one of its elements. Which one is up to the random generator.
#[verifier::external_body]
fn choose_string(items: &Vec<String>, rng: &mut ThreadRng) -> (picked: Option<String>)
    ensures
        picked is Some <==> items@.len() > 0,
        picked matches Some(s) ==> exists|i: int| 0 <= i < items@.len() && s@ == items@[i]@,
{
    items.as_slice().choose(rng).cloned()
}

/// A practice text picked at random from the presets.
pub fn random_drill(rng: &mut ThreadRng) -> (drill: String)
    ensures
        exists|i: int| 0 <= i < drill_texts().len() && drill@ == drill_texts()[i],
{
    let drills = drill_presets();
    proof {
        assert(drill_texts().len() == 8);
        assert(strings_view(drills@).len() == drills@.len());
    }
    match choose_string(&drills, rng) {
        Some(s) => {
            proof {
                let i = choose|i: int| 0 <= i < drills@.len() && s@ == drills@[i]@;
                assert(strings_view(drills@)[i] == drills@[i]@);
            }
            s
        },
        None => String::new(),
    }
}

/// Every practice text has something to type, and there are eight of them.
pub proof fn law_drills_are_nonempty()
    ensures
        drill_texts().len() == 8,
        forall|i: int| 0 <= i < drill_texts().len() ==> #[trigger] drill_texts()[i].len() > 0,
{
    reveal_strlit(
        "The quick brown fox jumps over the lazy dog while the calm river flows past five keen developers.",
    );
    reveal_strlit("let total = items.iter().filter(|i| i.active).map(|i| i.price).sum::<f64>();");
    reveal_strlit(
        "if err := validate(input); err != nil {\n    return fmt.Errorf(\"invalid input: %w\", err)\n}",
    );
    reveal_strlit(
        "Success is not final, failure is not fatal: it is the courage to continue that counts.",
    );
    reveal_strlit(
        "def solve(nums):\n    return sorted(n * n for n in nums if n > 0)[-3:]\nprint(solve([-4, -1, 0, 3, 10]))",
    );
    reveal_strlit(
        "git commit -m \"fix: handle empty payload in webhook parser\" && git push origin main",
    );
    reveal_strlit(
        "A journey of a thousand miles begins with a single step, and every keystroke brings you closer to mastery.",
    );
    reveal_strlit(
        "SELECT u.name, COUNT(o.id) AS orders FROM users u LEFT JOIN orders o ON o.user_id = u.id GROUP BY u.name HAVING COUNT(o.id) > 5;",
    );
}

} // verus!
