//! Cleaning lists of addresses.
use mailgraph::clean::{
    build_filters, clean_list, clean_rows, filter_reason, parse_column_ref, resolve_column,
    resolve_optional_column, CleanArgs, CleanError, Cleaned, DropReason, Summary,
};
use mailgraph::csv::{read_rows, write_rows, CsvError};

fn plain() -> CleanArgs {
    CleanArgs {
        email_column: None,
        name_column: None,
        email_name_only: true,
        no_defaults: false,
        exclude_domain_contains: Vec::new(),
        exclude_email_contains: Vec::new(),
        exclude_email: Vec::new(),
        keep_free_mail: false,
        drop_role_accounts: false,
    }
}

fn strings(parts: &[&str]) -> Vec<String> {
    parts.iter().map(|p| p.to_string()).collect()
}

fn clean(args: &CleanArgs, text: &str) -> (String, Cleaned) {
    let cleaned = clean_list(args, text).unwrap();
    (write_rows(&cleaned.rows), cleaned)
}

#[test]
fn accepts_private_domain_filters_from_the_environment() {
    let args = CleanArgs {
        keep_free_mail: true,
        exclude_domain_contains: vec!["blocked.example,another.example".to_string()],
        ..plain()
    };
    let cleaned = clean_list(
        &args,
        "email,name\nkept@allowed.example,Alice\ndropped@blocked.example,Service\n",
    );

    assert!(cleaned.is_ok());
    assert_eq!(
        write_rows(&cleaned.unwrap().rows),
        "email,name\nkept@allowed.example,Alice\n"
    );
}

#[test]
fn drops_for_every_reason() {
    let args = CleanArgs {
        exclude_email: vec![" Boss@Corp.example ".to_string()],
        exclude_email_contains: vec!["temp".to_string()],
        ..plain()
    };
    let (text, cleaned) = clean(
        &args,
        "Name, E-Mail \nAnn, <Ann@Corp.example> \nNobody,nobody\nBoss,boss@corp.example\nFree,x@GMAIL.com\nBot,no-reply@corp.example\nTemp,temp1@corp.example\nAnn2,ann@corp.example\nShort\n",
    );
    assert_eq!(text, "email,name\nann@corp.example,Ann\n");
    let reasons: Vec<(usize, &str, &str)> = cleaned
        .dropped
        .iter()
        .map(|d| (d.line, d.email.as_str(), d.reason.as_str()))
        .collect();
    assert_eq!(
        reasons,
        vec![
            (3, "nobody", "invalid email"),
            (4, "boss@corp.example", "exact email excluded"),
            (5, "x@gmail.com", "domain pattern excluded"),
            (6, "no-reply@corp.example", "email pattern excluded"),
            (7, "temp1@corp.example", "email pattern excluded"),
            (8, "ann@corp.example", "duplicate email"),
            (9, "", "invalid email"),
        ]
    );
    assert_eq!(
        cleaned.summary,
        Summary {
            input_rows: 8,
            kept_rows: 1,
            duplicate_rows: 1,
            invalid_rows: 2,
            filtered_rows: 4,
        }
    );
    assert_eq!(
        cleaned.summary.report(),
        "Cleaned list: 8 input, 1 kept, 4 filtered, 2 invalid, 1 duplicates"
    );
    assert_eq!(
        cleaned.dropped[0].explain(),
        "line 3: dropped nobody (invalid email)"
    );
}

#[test]
fn cleaning_again_changes_nothing() {
    let text = "email,name\nB@x.example, Bea \na@x.example,\"A, \"\"B\"\"\"\nb@X.example,Bob\n";
    let (once, _) = clean(&plain(), text);
    let (twice, cleaned) = clean(&plain(), &once);
    assert_eq!(once, "email,name\nb@x.example,Bea\na@x.example,\"A, \"\"B\"\"\"\n");
    assert_eq!(once, twice);
    assert!(cleaned.dropped.is_empty());
}

#[test]
fn built_in_filters_can_be_left_out() {
    let text = "email\nx@gmail.com\nnoreply@x.example\ninfo@x.example\n";
    let kept = |args: &CleanArgs| clean(args, text).1.summary.kept_rows;
    assert_eq!(kept(&plain()), 1);
    assert_eq!(kept(&CleanArgs { keep_free_mail: true, ..plain() }), 2);
    assert_eq!(kept(&CleanArgs { no_defaults: true, ..plain() }), 3);
    assert_eq!(kept(&CleanArgs { drop_role_accounts: true, ..plain() }), 0);
    assert_eq!(kept(&CleanArgs { no_defaults: true, drop_role_accounts: true, ..plain() }), 1);
}

#[test]
fn other_columns_can_be_kept() {
    let args = CleanArgs { email_name_only: false, ..plain() };
    let (text, _) = clean(&args, "id,email,note\n1,A@X.example,\"x,y\"\n2,bad,z\n");
    assert_eq!(text, "id,email,note\n1,a@x.example,\"x,y\"\n");
}

#[test]
fn columns_are_found_by_name_and_number() {
    let header = strings(&["Id", " E-Mail ", "Full Name"]);
    assert_eq!(parse_column_ref(&header, "0"), Ok(0));
    assert_eq!(parse_column_ref(&header, "1"), Ok(0));
    assert_eq!(parse_column_ref(&header, "3"), Ok(2));
    assert_eq!(parse_column_ref(&header, " e-mail"), Ok(1));
    let error = parse_column_ref(&header, "4").unwrap_err();
    assert_eq!(error, CleanError::OutOfRange("4".to_string()));
    assert_eq!(error.message(), "column index 4 is out of range");
    let error = parse_column_ref(&header, "phone").unwrap_err();
    assert_eq!(error, CleanError::NotFound("phone".to_string()));
    assert_eq!(error.message(), "column 'phone' not found");
    assert_eq!(resolve_column(&header, None, &["mail", "e-mail", "id"]), Ok(1));
    assert_eq!(resolve_column(&header, Some("id"), &["e-mail"]), Ok(0));
    let error = resolve_column(&header, None, &["mail", "address"]).unwrap_err();
    assert_eq!(
        error.message(),
        "could not auto-detect column. Tried: mail, address. Pass --email-column or --name-column"
    );
    assert_eq!(error, CleanError::NotDetected(strings(&["mail", "address"])));
    assert_eq!(resolve_optional_column(&header, None, &["name"]), Ok(None));
    assert_eq!(resolve_optional_column(&header, None, &["name", "full name"]), Ok(Some(2)));
    assert_eq!(
        resolve_optional_column(&header, Some("9"), &[]),
        Err(CleanError::OutOfRange("9".to_string()))
    );
}

#[test]
fn lists_that_cannot_be_cleaned() {
    assert_eq!(clean_list(&plain(), ""), Err(CleanError::Empty));
    assert_eq!(CleanError::Empty.message(), "input is empty");
    let error = clean_list(&plain(), "email\n\"open\n").unwrap_err();
    assert_eq!(error, CleanError::Csv(CsvError::UnterminatedQuote));
    assert_eq!(error.message(), "unterminated quoted CSV field");
    assert!(matches!(clean_list(&plain(), "phone\n1\n"), Err(CleanError::NotDetected(_))));
    let args = CleanArgs { name_column: Some("nick".to_string()), ..plain() };
    assert_eq!(
        clean_rows(&args, &vec![strings(&["email"])]),
        Err(CleanError::NotFound("nick".to_string()))
    );
    let args = CleanArgs { email_column: Some("2".to_string()), ..plain() };
    assert_eq!(
        clean_rows(&args, &vec![strings(&["email"])]),
        Err(CleanError::OutOfRange("2".to_string()))
    );
}

#[test]
fn filters_are_sorted_and_distinct() {
    let args = CleanArgs {
        no_defaults: true,
        exclude_domain_contains: strings(&["b, A ,b", "", " , c"]),
        exclude_email_contains: strings(&["Z,y"]),
        exclude_email: strings(&["<Ann@X.example>,nobody"]),
        ..plain()
    };
    let filters = build_filters(&args);
    assert_eq!(filters.domain_contains, strings(&["a", "b", "c"]));
    assert_eq!(filters.email_contains, strings(&["y", "z"]));
    assert_eq!(filters.exact_emails, strings(&["ann@x.example"]));
    let reason = |email: &str, domain: &str| filter_reason(email, domain, &filters);
    assert_eq!(reason("ann@x.example", "x.example"), Some(DropReason::Excluded));
    assert_eq!(reason("q@abc", "abc"), Some(DropReason::DomainPattern));
    assert_eq!(reason("zoe@mill", "mill"), Some(DropReason::EmailPattern));
    assert_eq!(reason("q@mill", "mill"), None);
    let defaults = build_filters(&plain());
    assert_eq!(defaults.domain_contains.len(), 16);
    assert_eq!(defaults.email_contains.len(), 10);
    assert!(defaults.email_contains.contains(&"mailer-daemon".to_string()));
    let roles = build_filters(&CleanArgs { drop_role_accounts: true, ..plain() });
    assert_eq!(roles.email_contains.len(), 32);
}

#[test]
fn rows_are_written_and_read_back() {
    let rows = vec![
        strings(&["a", "", "b c"]),
        strings(&["x,y", "say \"hi\"", "cr\rcr"]),
        strings(&[""]),
        strings(&["ends with\r"]),
    ];
    let text = write_rows(&rows);
    assert_eq!(
        text,
        "a,,b c\n\"x,y\",\"say \"\"hi\"\"\",\"cr\rcr\"\n\n\"ends with\r\"\n"
    );
    assert_eq!(read_rows(&text), Ok(rows));
    assert_eq!(read_rows("a,\"b\"c\r\nd"), Ok(vec![strings(&["a", "bc"]), strings(&["d"])]));
    assert_eq!(read_rows("\"a"), Err(CsvError::UnterminatedQuote));
    assert_eq!(CsvError::UnterminatedQuote.message(), "unterminated quoted CSV field");
}
