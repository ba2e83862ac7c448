use mdbook_webinclude::{Action, Expansion};

/// Runs an expansion, answering the fetches in turn from `bodies`
/// (`None`: the fetch fails), and returns the output and the URLs asked for.
fn run(doc: &str, bodies: &[Option<&str>]) -> (String, Vec<String>) {
    let mut e = Expansion::new(doc);
    let mut asked = Vec::new();
    loop {
        match e.next_action() {
            Action::Finished(out) => return (out, asked),
            Action::Fetch { url, .. } => {
                let body = bodies[asked.len()].map(|b| b.to_string());
                asked.push(url);
                e.resume(body);
            }
        }
    }
}

#[test]
fn plain_document_unchanged() {
    let doc = "# Title\n\nSome {text} with {{braces}} but no directive.\n";
    assert_eq!(run(doc, &[]), (doc.to_string(), vec![]));
}

#[test]
fn failed_directive_left_in_place() {
    let doc = "before {{#webinclude http://x/a 2}} after";
    let (out, asked) = run(doc, &[None]);
    assert_eq!(out, doc);
    assert_eq!(asked, vec!["http://x/a".to_string()]);
}

#[test]
fn malformed_url_left_in_place() {
    let doc = "before {{#webinclude nowhere 2}} after";
    assert_eq!(run(doc, &[]), (doc.to_string(), vec![]));
}

#[test]
fn escaped_directive_not_fetched() {
    assert_eq!(
        run("\\{{#webinclude http://x 1}}", &[]),
        ("{{#webinclude http://x 1}}".to_string(), vec![])
    );
}

#[test]
fn directive_replaced_by_selection() {
    let doc = "A {{#webinclude http://x/f 2:3}} B";
    let (out, _) = run(doc, &[Some("l1\nl2\nl3\nl4\n")]);
    assert_eq!(out, "A l2\nl3 B");
}

#[test]
fn anchor_selection_replaced() {
    let doc = "{{#webinclude http://x/f part}}";
    let (out, _) = run(doc, &[Some("x\nANCHOR: part\nA\nB\nANCHOR_END: part\ny")]);
    assert_eq!(out, "A\nB");
}

#[test]
fn results_in_document_order() {
    let doc = "1 {{#webinclude http://x/slow}} 2 {{#webinclude http://x/fast}} 3";
    let (out, asked) = run(doc, &[Some("first"), Some("second")]);
    assert_eq!(out, "1 first 2 second 3");
    assert_eq!(asked, vec!["http://x/slow".to_string(), "http://x/fast".to_string()]);
}

#[test]
fn fetched_text_expanded_again() {
    let doc = "<{{#webinclude http://x/outer}}>";
    let (out, asked) = run(doc, &[Some("[{{#webinclude http://x/inner}}]"), Some("core")]);
    assert_eq!(out, "<[core]>");
    assert_eq!(asked.len(), 2);
}

#[test]
fn failure_isolated_to_its_directive() {
    let doc = "{{#webinclude http://x/a}} {{#webinclude http://x/b}}";
    let (out, _) = run(doc, &[None, Some("ok")]);
    assert_eq!(out, "{{#webinclude http://x/a}} ok");
}

#[test]
fn cyclic_inclusion_stops_at_depth_bound() {
    let token = "{{#webinclude http://x/self}}";
    let bodies: Vec<Option<&str>> = (0..20).map(|_| Some(token)).collect();
    let (out, asked) = run(token, &bodies);
    assert_eq!(asked.len(), 11);
    assert_eq!(out, token);
}

#[test]
fn depth_bound_reached_after_ten_levels() {
    let token = "{{#webinclude http://x/self}}";
    let mut e = Expansion::new(token);
    let mut levels = 0;
    loop {
        match e.next_action() {
            Action::Fetch { .. } => {
                if e.at_depth_bound() {
                    break;
                }
                levels += 1;
                e.resume(Some(token.to_string()));
            }
            Action::Finished(_) => panic!("finished early"),
        }
    }
    assert_eq!(levels, 10);
    e.resume(Some("verbatim {{#webinclude http://x/self}}".to_string()));
    match e.next_action() {
        Action::Finished(out) => assert_eq!(out, "verbatim {{#webinclude http://x/self}}"),
        Action::Fetch { .. } => panic!("expanded past the bound"),
    }
    assert!(e.is_finished());
}

#[test]
fn malformed_url_reported() {
    let doc = "a {{#webinclude nowhere 2}} b";
    let mut e = Expansion::new(doc);
    match e.next_action() {
        Action::Finished(out) => assert_eq!(out, doc),
        Action::Fetch { .. } => panic!("nothing to fetch"),
    }
    assert_eq!(e.take_malformed(), vec!["{{#webinclude nowhere 2}}".to_string()]);
    assert!(e.take_malformed().is_empty());
}
