use rsfly::color::Colorize;

#[test]
fn test_colorize() {
    let s = "proxy";
    println!("{}", s.red());
    println!("{}", s.green());
    println!("{}", s.blue());
    println!("{}", s.yellow());
}

#[test]
fn colours_wrap_the_text_in_escape_sequences() {
    assert_eq!("proxy".red(), "\x1b[31mproxy\x1b[0m");
    assert_eq!("proxy".green(), "\x1b[32mproxy\x1b[0m");
    assert_eq!("proxy".blue(), "\x1b[34mproxy\x1b[0m");
    assert_eq!("proxy".yellow(), "\x1b[33mproxy\x1b[0m");
}

#[test]
fn owned_strings_are_coloured_like_slices() {
    let s = String::from("socks > proxy");
    assert_eq!(s.red(), "\x1b[31msocks > proxy\x1b[0m");
    assert_eq!(s.green(), "\x1b[32msocks > proxy\x1b[0m");
    assert_eq!(s.blue(), "\x1b[34msocks > proxy\x1b[0m");
    assert_eq!(s.yellow(), "\x1b[33msocks > proxy\x1b[0m");
    assert_eq!(String::new().yellow(), "\x1b[33m\x1b[0m");
}
