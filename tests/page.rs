use krarkinator::page::{Page, Visibility};

#[test]
fn toggle_flips_visibility() {
    let mut v = Visibility::Hidden;
    v.toggle();
    assert_eq!(v, Visibility::Visible);
    v.toggle();
    assert_eq!(v, Visibility::Hidden);
}

#[test]
fn pages_from_path() {
    assert_eq!(Page::from_path_parts(&vec![]), Page::Home);
    assert_eq!(Page::from_path_parts(&vec!["about".to_string()]), Page::About);
    assert_eq!(Page::from_path_parts(&vec!["contact".to_string()]), Page::NotFound);
    assert_eq!(
        Page::from_path_parts(&vec!["about".to_string(), "x".to_string()]),
        Page::NotFound
    );
}

#[test]
fn page_titles() {
    assert_eq!(Page::Home.title(), "Kavik.cz");
    assert_eq!(Page::About.title(), "About - Kavik.cz");
    assert_eq!(Page::NotFound.title(), "404 - Kavik.cz");
}
