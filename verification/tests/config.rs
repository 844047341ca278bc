use lazybind::addr::{parse_addr, Addr};
use lazybind::config::{read_config, ConfigError, ConfigReader, Endpoint, LineError};
use lazybind::text::chars_of;

fn lines(text: &str) -> Vec<String> {
    text.lines().map(|l| l.to_string()).collect()
}

fn read(text: &str) -> Result<Vec<(Addr, Vec<String>)>, ConfigError> {
    read_config(&lines(text)).map(|es: Vec<Endpoint>| es.into_iter().map(|e| (e.addr, e.cmd)).collect())
}

fn strings(words: &[&str]) -> Vec<String> {
    words.iter().map(|w| w.to_string()).collect()
}

fn at(line: usize, error: LineError) -> ConfigError {
    ConfigError { line, error }
}

const SAMPLE: &str = "# comment lines start with #
8000 /usr/bin/some_command some_args
# continued commands start with whitespace
     --some_more_args

# empty lines also continue commands
     --some_even_more_args
";

#[test]
fn documented_sample() {
    assert_eq!(
        read(SAMPLE).unwrap(),
        [(
            Addr { ip: [0, 0, 0, 0], port: 8000 },
            strings(&["/usr/bin/some_command", "some_args", "--some_more_args", "--some_even_more_args"]),
        )]
    );
}

#[test]
fn several_endpoints_in_order() {
    let es = read("127.0.0.1:1 a\n10.0.0.1:2\tb\n  c\n127.0.0.1:1 d").unwrap();
    assert_eq!(
        es,
        [
            (Addr { ip: [127, 0, 0, 1], port: 1 }, strings(&["a"])),
            (Addr { ip: [10, 0, 0, 1], port: 2 }, strings(&["b", "c"])),
            (Addr { ip: [127, 0, 0, 1], port: 1 }, strings(&["d"])),
        ]
    );
    assert_eq!(read("").unwrap(), []);
    assert_eq!(read("# nothing\n\n").unwrap(), []);
}

#[test]
fn empty_command_is_read() {
    assert_eq!(read("127.0.0.1:1 ").unwrap(), [(Addr { ip: [127, 0, 0, 1], port: 1 }, vec![])]);
}

#[test]
fn errors_of_lines() {
    assert_eq!(read(" a"), Err(at(1, LineError::NoPredecessor)));
    assert_eq!(read("#\n\n\ta"), Err(at(3, LineError::NoPredecessor)));
    assert_eq!(read("1 a\n127.0.0.1:1"), Err(at(2, LineError::NoSpace)));
    assert_eq!(read("localhost:1 a"), Err(at(1, LineError::BadAddr)));
    assert_eq!(read("1 a 'b"), Err(at(1, LineError::Unterminated { position: 2 })));
    assert_eq!(read("1 a\n  'b"), Err(at(2, LineError::Unterminated { position: 2 })));
    // the address comes before the command, the first line before the second
    assert_eq!(read("x 'a\n y"), Err(at(1, LineError::BadAddr)));
    assert_eq!(read(" a\nx"), Err(at(1, LineError::NoPredecessor)));
}

#[test]
fn comment_sign_only_at_the_start() {
    assert_eq!(read("1 a # b").unwrap()[0].1, strings(&["a", "#", "b"]));
    assert_eq!(read("1 a\n # b").unwrap()[0].1, strings(&["a", "#", "b"]));
}

#[test]
fn continuation_joins() {
    let joined = read("1 a 'b c' \"d\"\t e").unwrap();
    assert_eq!(read("1 a 'b c'\n \"d\"\n\t e").unwrap(), joined);
    assert_eq!(read("1 \n a").unwrap(), read("1  a").unwrap());
}

#[test]
fn ignored_lines_change_nothing_but_numbers() {
    assert_eq!(read("1 a\n# x\n b").unwrap(), read("1 a\n b").unwrap());
    assert_eq!(read("1 a\n\nx"), Err(at(3, LineError::NoSpace)));
    assert_eq!(read("1 a\nx"), Err(at(2, LineError::NoSpace)));
    assert_eq!(read("x\n\n1 a"), Err(at(1, LineError::NoSpace)));
}

#[test]
fn reader_takes_lines_one_by_one() {
    let r = ConfigReader::new();
    let r = r.read_config_line("1 a").unwrap();
    let r = r.read_config_line("").unwrap();
    let r = r.read_config_line("2 b").unwrap();
    assert_eq!(r.endpoints.len(), 1);
    let es = r.finish();
    assert_eq!(es.len(), 2);
    assert_eq!(es[1].addr.port, 2);
    assert_eq!(ConfigReader::new().finish().len(), 0);
}

#[test]
fn addresses() {
    let a = |s: &str| parse_addr(s).map(|a| (a.ip, a.port));
    assert_eq!(a("127.0.0.1:8000"), Some(([127, 0, 0, 1], 8000)));
    assert_eq!(a("0.0.0.0:0"), Some(([0, 0, 0, 0], 0)));
    assert_eq!(a("255.255.255.255:65535"), Some(([255, 255, 255, 255], 65535)));
    assert_eq!(a("1.2.3.4:00080"), Some(([1, 2, 3, 4], 80)));
    assert_eq!(a("8000"), Some(([0, 0, 0, 0], 8000)));
    assert_eq!(a("0"), Some(([0, 0, 0, 0], 0)));
    for bad in [
        "", ":", "1.2.3.4", "1.2.3.4:", "1.2.3:80", "1.2.3.4.5:80", "1.2.3.4:80:", "256.0.0.1:80",
        "01.2.3.4:80", "1.2.3.00:80", "1.2.3.0004:80", "1..3.4:80", "1.2.3.4:65536", "1.2.3.4:-1",
        "1.2.3.4:+1", " 1.2.3.4:80", "1.2.3.4:80 ", "65536", "8a", "+1", "٣", "1.2.3.٤:80", "[::1]:80",
        "99999999999999999999",
    ] {
        assert_eq!(a(bad), None);
    }
}

#[test]
fn dotted_address_reads_back() {
    for ip in [[0u8, 1, 10, 100], [99, 199, 200, 255]] {
        for port in [0u16, 9, 10, 8080, 65535] {
            let text = format!("{}.{}.{}.{}:{}", ip[0], ip[1], ip[2], ip[3], port);
            assert_eq!(parse_addr(&text), Some(Addr { ip, port }));
        }
    }
}

#[test]
fn characters_of_a_string() {
    assert_eq!(chars_of("aä\u{1f600}"), ['a', 'ä', '\u{1f600}']);
    assert_eq!(chars_of(""), []);
}

#[test]
fn command_is_header_and_continuations_up_to_the_next_header() {
    let es = read("1 a b\n c\n# x\n\n\td 'e f'\n2 g\n h\n3 i").unwrap();
    let cmds: Vec<Vec<String>> = es.into_iter().map(|(_, cmd)| cmd).collect();
    assert_eq!(
        cmds,
        [strings(&["a", "b", "c", "d", "e f"]), strings(&["g", "h"]), strings(&["i"])]
    );
}

#[test]
fn first_bad_line_is_reported() {
    assert_eq!(read("1 a\n b\n 'c\nx\n"), Err(at(3, LineError::Unterminated { position: 1 })));
    assert_eq!(read("1 a\nx y\n 'c"), Err(at(2, LineError::BadAddr)));
    assert_eq!(read("\n b\n1 a"), Err(at(2, LineError::NoPredecessor)));
}
