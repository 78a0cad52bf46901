use mdstream::stream::html::update_html_block_state;

#[test]
fn html_stack_tracks_section_with_nested_p() {
    let mut stack = Vec::<String>::new();
    let mut in_comment = false;
    update_html_block_state("<section>", &mut stack, &mut in_comment);
    assert_eq!(stack, vec!["section".to_string()]);
    update_html_block_state("  <p>Second block</p>", &mut stack, &mut in_comment);
    assert_eq!(stack, vec!["section".to_string()]);
    update_html_block_state("</section>", &mut stack, &mut in_comment);
    assert!(stack.is_empty());
}
