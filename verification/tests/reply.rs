use tyozo::reply::render;

#[test]
fn a_result_is_rendered_as_it_stands() {
    assert_eq!(render(&Ok(String::from("OK"))), "OK");
    assert_eq!(render(&Ok(String::new())), "");
}

#[test]
fn an_error_is_rendered_in_bold_red_after_its_mark() {
    assert_eq!(
        render(&Err(String::from("unknown command"))),
        "(error) \u{1b}[1;31munknown command\u{1b}[0m"
    );
    assert_eq!(render(&Err(String::new())), "(error) \u{1b}[1;31m\u{1b}[0m");
}
