use gasm::order::{compare, search, Precedence};

fn strings(items: &[&str]) -> Vec<String> {
    items.iter().map(|s| String::from(*s)).collect()
}

#[test]
fn compare_goes_by_the_first_difference() {
    assert_eq!(compare("ACG", "ACT"), Precedence::Before);
    assert_eq!(compare("ACT", "ACG"), Precedence::After);
    assert_eq!(compare("ACG", "ACG"), Precedence::Same);
    assert_eq!(compare("TAA", "ATT"), Precedence::After);
}

#[test]
fn compare_puts_a_prefix_first() {
    assert_eq!(compare("", "A"), Precedence::Before);
    assert_eq!(compare("AC", "ACA"), Precedence::Before);
    assert_eq!(compare("ACA", "AC"), Precedence::After);
    assert_eq!(compare("", ""), Precedence::Same);
}

#[test]
fn compare_agrees_with_the_order_of_strings() {
    let words = ["", "A", "AA", "AC", "CA", "a", "T", "TTT", "é", "z"];
    for a in words {
        for b in words {
            let expected = match a.cmp(b) {
                std::cmp::Ordering::Less => Precedence::Before,
                std::cmp::Ordering::Equal => Precedence::Same,
                std::cmp::Ordering::Greater => Precedence::After,
            };
            assert_eq!(compare(a, b), expected);
        }
    }
}

#[test]
fn search_finds_an_element_or_its_place() {
    let list = strings(&["AAC", "ACG", "CGT", "GTA", "TAA"]);
    assert_eq!(search(&list, "AAC"), Ok(0));
    assert_eq!(search(&list, "CGT"), Ok(2));
    assert_eq!(search(&list, "TAA"), Ok(4));
    assert_eq!(search(&list, "AAA"), Err(0));
    assert_eq!(search(&list, "CCC"), Err(2));
    assert_eq!(search(&list, "TTT"), Err(5));
    assert_eq!(search(&strings(&[]), "ACG"), Err(0));
}
