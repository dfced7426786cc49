use ded::formatter::{Error, Formatter};

#[test]
fn escape() {
    assert_eq!("foo%%bar", Formatter::escape("foo%bar"));
    assert_eq!("foobar", Formatter::escape("foobar"));
}

#[test]
fn round_trip() {
    let mut formatter = Formatter::new();

    assert_eq!(
        Ok(String::from("foo%bar")),
        formatter.format(&Formatter::escape("foo%bar"))
    );
}

#[test]
fn format() {
    let mut formatter = Formatter::new();
    let pattern = "foo%n.txt";
    formatter.width(2);

    assert_eq!(Ok(String::from("foo01.txt")), formatter.format(pattern));
    assert_eq!(Ok(String::from("foo02.txt")), formatter.format(pattern));
    assert_eq!(Ok(String::from("foo03.txt")), formatter.format(pattern));

    formatter.counter(1);

    assert_eq!(Ok(String::from("foo01.txt")), formatter.format(pattern));
    assert_eq!(Ok(String::from("foo02.txt")), formatter.format(pattern));
    assert_eq!(Ok(String::from("foo03.txt")), formatter.format(pattern));

    assert_eq!(Err(Error::ExpectedSpec), formatter.format("%"));
    assert_eq!(Err(Error::UnknownSpec('x')), formatter.format("%x"));
}

#[test]
fn padding() {
    let mut formatter = Formatter::new();

    assert_eq!("1", formatter.pad_left(1));
    assert_eq!("2", formatter.pad_left(2));
    assert_eq!("20", formatter.pad_left(20));

    formatter.width(2);

    assert_eq!("01", formatter.pad_left(1));
    assert_eq!("02", formatter.pad_left(2));
    assert_eq!("20", formatter.pad_left(20));
}

#[test]
fn escape_empty_and_percent_runs() {
    assert_eq!("", Formatter::escape(""));
    assert_eq!("%%%%", Formatter::escape("%%"));
    assert_eq!("a%%b%%c", Formatter::escape("a%b%c"));
}

#[test]
fn round_trip_many_names() {
    for name in ["", "%", "%%", "%n", "a%nb", "100% sure", "%%%"] {
        let mut formatter = Formatter::new();
        formatter.width(3);
        formatter.counter(7);
        assert_eq!(
            Ok(String::from(name)),
            formatter.format(&Formatter::escape(name))
        );
        // Expanding an escaped name never advances the counter.
        assert_eq!(Ok(String::from("007")), formatter.format("%n"));
    }
}

#[test]
fn format_counter_keeps_increments_before_error() {
    let mut formatter = Formatter::new();
    formatter.width(1);
    assert_eq!(Err(Error::UnknownSpec('z')), formatter.format("%n%n%z"));
    // Two `%n` were expanded before the error, so the counter is 3 now.
    assert_eq!(Ok(String::from("3")), formatter.format("%n"));
}

#[test]
fn format_literal_percent() {
    let mut formatter = Formatter::new();
    assert_eq!(Ok(String::from("50%")), formatter.format("50%%"));
}
