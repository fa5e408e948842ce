use grove::porcelain::{enabled, error, escape, record, record_line, OutputMode, NONE};

#[test]
fn escapes_field_separators() {
    assert_eq!(escape("plain"), "plain");
    assert_eq!(escape("has\ttab"), "has\\ttab");
    assert_eq!(escape("has\nnewline"), "has\\nnewline");
    assert_eq!(escape("has\\backslash"), "has\\\\backslash");
}

/// A literal backslash-t must not be confused with an escaped tab after a
/// round trip, which is why the backslash itself is escaped first.
#[test]
fn escaping_is_unambiguous() {
    assert_eq!(escape("literal\\t"), "literal\\\\t");
    assert_ne!(escape("literal\\t"), escape("literal\t"));
}

#[test]
fn escapes_carriage_return() {
    assert_eq!(escape("a\rb"), "a\\rb");
}

#[test]
fn record_joins_escaped_fields_with_tabs() {
    let fields = vec!["wt".to_string(), "a\tb".to_string(), "-".to_string()];
    assert_eq!(record_line(&fields), "wt\ta\\tb\t-");
}

#[test]
fn record_is_silent_unless_porcelain() {
    let mut mode = OutputMode { porcelain: false };
    let fields = vec!["pruned".to_string()];
    assert_eq!(record(&mode, &fields), None);
    grove::porcelain::set(&mut mode, true);
    assert!(enabled(&mode));
    assert_eq!(record(&mode, &fields), Some("pruned".to_string()));
}

#[test]
fn error_record_escapes_message() {
    assert_eq!(error("bad\tthing\n"), "error\tbad\\tthing\\n");
}

#[test]
fn absent_field_placeholder_is_dash() {
    assert_eq!(NONE, "-");
}

/// Splitting a record at its tabs and undoing the escapes gives back the
/// fields (the round-trip law on one record).
#[test]
fn record_round_trips() {
    let fields = vec!["x\\t".to_string(), "y\tz".to_string(), "w\nv".to_string()];
    let line = record_line(&fields);
    assert!(!line.contains('\n'));
    let back: Vec<String> = line
        .split('\t')
        .map(|p| {
            let mut out = String::new();
            let mut it = p.chars();
            while let Some(c) = it.next() {
                if c == '\\' {
                    match it.next() {
                        Some('t') => out.push('\t'),
                        Some('n') => out.push('\n'),
                        Some('r') => out.push('\r'),
                        Some('\\') => out.push('\\'),
                        Some(o) => out.push(o),
                        None => {}
                    }
                } else {
                    out.push(c);
                }
            }
            out
        })
        .collect();
    assert_eq!(back, fields);
}
