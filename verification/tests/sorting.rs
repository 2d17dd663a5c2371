use ymir::sorting::{Filter, Sorting};

const ORDERS: [Sorting; 6] = [
    Sorting::Name,
    Sorting::Size,
    Sorting::Commits,
    Sorting::CreationDate,
    Sorting::ModificationDate,
    Sorting::Loc,
];

const FILTERS: [Filter; 5] =
    [Filter::All, Filter::Owned, Filter::NotOwned, Filter::HasRemote, Filter::NoRemote];

#[test]
fn orders_form_a_ring() {
    for (i, order) in ORDERS.iter().enumerate() {
        assert_eq!(order.next(), ORDERS[(i + 1) % 6]);
        assert_eq!(order.previous(), ORDERS[(i + 5) % 6]);
        assert_eq!(order.next().previous(), *order);
        assert_eq!(order.previous().next(), *order);
    }
    assert_eq!(Sorting::Loc.next(), Sorting::Name);
    assert_eq!(Sorting::Name.previous(), Sorting::Loc);
}

#[test]
fn filters_form_a_ring() {
    for (i, filter) in FILTERS.iter().enumerate() {
        assert_eq!(filter.next(), FILTERS[(i + 1) % 5]);
        assert_eq!(filter.previous(), FILTERS[(i + 4) % 5]);
        assert_eq!(filter.next().previous(), *filter);
        assert_eq!(filter.previous().next(), *filter);
    }
    assert_eq!(Filter::NoRemote.next(), Filter::All);
    assert_eq!(Filter::All.previous(), Filter::NoRemote);
}

#[test]
fn orders_and_filters_have_labels() {
    let labels: Vec<&str> = ORDERS.iter().map(Sorting::label).collect();
    assert_eq!(
        labels,
        vec!["Name", "Size", "Commits", "Creation Date", "Modification Date", "Lines of Code"]
    );
    let labels: Vec<&str> = FILTERS.iter().map(Filter::label).collect();
    assert_eq!(labels, vec!["All", "Owned", "Not Owned", "Has Remote", "No Remote"]);
}
