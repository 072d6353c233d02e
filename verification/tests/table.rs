use pinout::af_layout::{bucket_names, write_pin_out_af};
use pinout::db::{GpioMode, PartInfo, PinInfo, SignalInfo, SignalMap};
use pinout::error::Failure;
use pinout::factor::{factorize, factorize_pieces, try_factorize, Piece};
use pinout::pattern::{Pattern, PatternSet};
use pinout::remap_layout::{label, name_category, write_pin_out_remap};
use pinout::table::{render, write_pin_out, SignalFilter};
use pinout::xml::XmlDocument;

fn strings(items: &[&str]) -> Vec<String> {
    items.iter().map(|s| s.to_string()).collect()
}

fn filter(exclude: &[&str]) -> SignalFilter {
    match SignalFilter::new(&strings(exclude)) {
        Ok(filter) => filter,
        Err(e) => panic!("{:?}", e),
    }
}

fn signal(name: &str, map: SignalMap) -> SignalInfo {
    SignalInfo { name: name.to_string(), map }
}

fn pin(name: &str, position: &str, signals: Vec<SignalInfo>) -> PinInfo {
    PinInfo { name: name.to_string(), position: position.to_string(), signals }
}

fn part(gpio_mode: GpioMode, pins: Vec<PinInfo>) -> PartInfo {
    PartInfo {
        part: "P".to_string(),
        line: "L".to_string(),
        package: "K".to_string(),
        gpio_mode,
        pins,
    }
}

fn af_row(name: &str, position: &str, cells: &[(usize, &str)]) -> Vec<String> {
    let mut row = vec![String::new(); 19];
    row[0] = name.to_string();
    row[1] = position.to_string();
    for (column, text) in cells {
        row[2 + column] = text.to_string();
    }
    row
}

fn whole(name: &str) -> Piece {
    Piece::Whole(name.to_string())
}

fn split(before: &str, term: &str, after: &str) -> Piece {
    Piece::Split { before: before.to_string(), term: term.to_string(), after: after.to_string() }
}

#[test]
fn new_accepts_fragments_that_are_regexes() {
    assert!(SignalFilter::new(&Vec::new()).is_ok());
    assert!(SignalFilter::new(&strings(&["ADC", "T(IM)?", "[A-Z]+", "", "a|b"])).is_ok());
}

#[test]
fn new_reports_the_words_of_the_regex_crate() {
    match SignalFilter::new(&strings(&["ADC", "a(b"])) {
        Err(Failure::Pattern(words)) => {
            let set = regex::RegexSet::new(["^(?:ADC)[0-9_]", "^(?:a(b)[0-9_]"]);
            assert_eq!(words, set.unwrap_err().to_string());
            assert!(!words.is_empty());
        },
        Err(other) => panic!("{:?}", other),
        Ok(_) => panic!("accepted"),
    }
    match Pattern::new("[a") {
        Err(Failure::Pattern(words)) => {
            assert_eq!(words, regex::Regex::new("[a").unwrap_err().to_string())
        },
        Err(other) => panic!("{:?}", other),
        Ok(_) => panic!("accepted"),
    }
}

#[test]
fn new_rejects_a_malformed_fragment() {
    for bad in ["(", ")", "[a", "a{2", "*", "(?P<n", "\\"] {
        assert!(
            matches!(SignalFilter::new(&strings(&["ADC", bad])), Err(Failure::Pattern(_))),
            "{:?}",
            bad
        );
    }
}

#[test]
fn substitute_shortens_the_names_of_peripherals() {
    let f = filter(&[]);
    for (name, short) in [
        ("TIM1_CH1", "T1_CH1"),
        ("TIM17_BKIN", "T17_BKIN"),
        ("HRTIM1_CHA1", "HRT1_CHA1"),
        ("LPTIM1_IN1", "LPT1_IN1"),
        ("USART2_TX", "U2_TX"),
        ("UART4_RX", "U4_RX"),
        ("LPUART1_TX", "LPU1_TX"),
        ("DFSDM1_CKOUT", "D1_CKOUT"),
        ("FMC_A0", "F_A0"),
        ("FSMC_D1", "F_D1"),
        ("QUADSPI_BK1_IO0", "Q1_IO0"),
        ("QUADSPI_CLK", "Q_CLK"),
        ("QUADSPI1_CLK", "Q1_CLK"),
        ("SPI1_MOSI", "S1_MOSI"),
        ("SWPMI1_IO", "SW1_IO"),
        ("I2S2_CK", "S2_CK"),
        ("I2S_CKIN", "S_CKIN"),
        ("SDMMC1_D0", "SD1_D0"),
        ("SPDIFRX_IN0", "SP_IN0"),
        ("FDCAN1_TX", "C1_TX"),
        ("USB_OTG_FS_DM", "FS_DM"),
        ("USB_OTG_HS_ULPI_D0", "HS_ULPI_D0"),
        ("TIM1_BKIN2", "T1_B2"),
        ("TIM1_BKIN_COMP1", "T1_B_COMP1"),
        ("TIM8_BKIN2_COMP2", "T8_B2_COMP2"),
    ] {
        assert_eq!(f.substitute(name), short, "{}", name);
    }
}

#[test]
fn substitute_leaves_other_names_alone() {
    let f = filter(&[]);
    for name in ["ADC1_IN5", "I2C1_SDA", "TIMER", "TIM", "SPINE", "xTIM1_CH1", "PA0", "", "CAN1_TX",
        "USB_DM", "SAI1_SD_A", "T1_BKIN", "T1_BKINx", "I2S", "USARTx", "SYS_SWDIO", "RCC_OSC_IN"] {
        assert_eq!(f.substitute(name), name, "{}", name);
    }
}

#[test]
fn substitute_twice_is_substitute_once() {
    let f = filter(&[]);
    for name in ["TIM1_CH1", "HRTIM1_CHA1", "LPTIM1_IN1", "USART2_TX", "UART4_RX", "LPUART1_TX",
        "DFSDM1_CKOUT", "FMC_A0", "FSMC_D1", "QUADSPI_BK1_IO0", "QUADSPI_CLK", "SPI1_MOSI",
        "SWPMI1_IO", "I2S2_CK", "SDMMC1_D0", "SPDIFRX_IN0", "FDCAN1_TX", "USB_OTG_FS_DM",
        "USB_OTG_HS_ULPI_D0", "TIM1_BKIN2", "TIM1_BKIN_COMP1", "ADC1_IN5", "I2C1_SDA", "SYS_SWDIO",
        "I2S_CKIN", "TIM8_BKIN2_COMP2"] {
        let once = f.substitute(name);
        assert_eq!(f.substitute(&once), once, "{}", name);
    }
}

#[test]
fn factorize_pieces_merges_names_that_differ_in_the_group() {
    let pieces = vec![
        split("U2_", "TX", ""),
        whole("PA0"),
        split("ADC", "1", "_IN5"),
        split("U2_", "RX", ""),
        split("ADC", "2", "_IN5"),
        whole("BOOT0"),
        split("ADC", "1", "_IN6"),
        split("U2_", "CK", ""),
    ];
    assert_eq!(factorize_pieces(&pieces, "/"), strings(&[
        "U2_TX/RX/CK",
        "ADC1/2_IN5",
        "ADC1_IN6",
        "PA0",
        "BOOT0",
    ]));
    assert_eq!(factorize_pieces(&pieces, ""), strings(&[
        "U2_TXRXCK",
        "ADC12_IN5",
        "ADC1_IN6",
        "PA0",
        "BOOT0",
    ]));
}

#[test]
fn factorize_pieces_keeps_repeated_terms_and_empty_parts() {
    assert_eq!(factorize_pieces(&Vec::new(), "/"), Vec::<String>::new());
    assert_eq!(factorize_pieces(&vec![whole("a"), whole("a")], "/"), strings(&["a", "a"]));
    assert_eq!(
        factorize_pieces(&vec![split("", "x", ""), split("", "x", ""), split("", "", "")], "+"),
        strings(&["x+x+"])
    );
    assert_eq!(
        factorize_pieces(&vec![split("a", "1", "b"), split("ab", "1", ""), split("", "1", "ab")], "/"),
        strings(&["a1b", "ab1", "1ab"])
    );
}

fn pattern(text: &str) -> Pattern {
    match Pattern::new(text) {
        Ok(p) => p,
        Err(e) => panic!("{:?}", e),
    }
}

#[test]
fn pattern_compiles_matches_replaces_and_cuts() {
    let p = pattern(r"^(A)B([0-9_])");
    assert!(p.is_match("AB1"));
    assert!(!p.is_match("xAB1"));
    assert!(!p.is_match("ab1"));
    assert_eq!(p.replace("AB1_X", "$1$2"), "A1_X");
    assert_eq!(p.replace("AC1_X", "$1$2"), "AC1_X");
    let cut = |before: &str, term: &str, after: &str| {
        Some(Some((before.to_string(), term.to_string(), after.to_string())))
    };
    assert_eq!(pattern(r"B(\d+)C").first_group("xB12Cy"), cut("xB", "12", "Cy"));
    assert_eq!(pattern(r"(\d)").first_group("a1b2"), cut("a", "1", "b2"));
    assert_eq!(pattern(r"(é)").first_group("aéb"), cut("a", "é", "b"));
    assert_eq!(pattern(r"()").first_group(""), cut("", "", ""));
    assert_eq!(pattern(r"B(\d+)C").first_group("BC"), None);
    assert_eq!(pattern(r"a(b)?c").first_group("ac"), Some(None));
    assert!(matches!(Pattern::new("("), Err(Failure::Pattern(_))));
}

#[test]
fn pattern_set_matches_where_one_of_its_patterns_does() {
    let set = match PatternSet::new(&strings(&["^A", "B$"])) {
        Ok(set) => set,
        Err(e) => panic!("{:?}", e),
    };
    assert!(set.is_match("Ax"));
    assert!(set.is_match("xB"));
    assert!(!set.is_match("xAB "));
    let empty = match PatternSet::new(&Vec::new()) {
        Ok(set) => set,
        Err(e) => panic!("{:?}", e),
    };
    assert!(!empty.is_match(""));
    assert!(matches!(PatternSet::new(&strings(&["A", "["])), Err(Failure::Pattern(_))));
}

#[test]
fn factorize_cuts_each_name_at_the_first_group_of_the_leftmost_match() {
    let re = pattern(r"ADC(\d)_IN");
    assert_eq!(
        factorize(&strings(&["ADC1_IN5", "x", "ADC2_IN5", "ADC3_IN6", "yADC4_IN6"]), &re, "+"),
        strings(&["ADC1+2_IN5", "ADC3_IN6", "yADC4_IN6", "x"])
    );
    let re = pattern(r"(\d)");
    assert_eq!(factorize(&strings(&["a1b2", "a3b2", "a1b1"]), &re, ""), strings(&["a13b2", "a1b1"]));
    assert_eq!(factorize(&Vec::new(), &re, "/"), Vec::<String>::new());
    assert_eq!(factorize(&strings(&["a1b2"]), &re, "/"), strings(&["a1b2"]));
}

#[test]
fn try_factorize_merges_where_the_group_takes_part_in_every_match() {
    let re = pattern(r"a(b)?c");
    assert_eq!(
        try_factorize(&strings(&["abc", "x", "abc"]), &re, "/"),
        Some(strings(&["ab/bc", "x"]))
    );
    assert_eq!(try_factorize(&Vec::new(), &re, "/"), Some(Vec::new()));
}

#[test]
fn try_factorize_declines_a_match_that_leaves_the_group_out() {
    let re = pattern(r"a(b)?c");
    assert_eq!(try_factorize(&strings(&["ac"]), &re, "/"), None);
    assert_eq!(try_factorize(&strings(&["abc", "abc", "ac"]), &re, "/"), None);
    let re = pattern(r"A(x)?B");
    assert_eq!(try_factorize(&strings(&["AB"]), &re, ""), None);
}

#[test]
fn filtering_twice_is_filtering_once() {
    let f = filter(&["ADC"]);
    for name in ["TIM1_CH1", "HRTIM1_CHA1", "LPTIM1_IN1", "USART2_TX", "UART4_RX", "LPUART1_TX",
        "DFSDM1_CKOUT", "FMC_A0", "FSMC_D1", "QUADSPI_BK1_IO0", "QUADSPI_CLK", "SPI1_MOSI",
        "SWPMI1_IO", "I2S2_CK", "SDMMC1_D0", "SPDIFRX_IN0", "FDCAN1_TX", "USB_OTG_FS_DM",
        "USB_OTG_HS_ULPI_D0", "TIM1_BKIN2", "TIM1_BKIN_COMP1", "ADC1_IN5", "I2C1_SDA", "EVENTOUT"] {
        let once = f.signal_filter("", "", &vec![strings(&[name])]);
        assert_eq!(once.len(), 1);
        assert!(once[0].len() <= 1);
        assert_eq!(f.signal_filter("", "", &once), once, "{}", name);
    }
}

#[test]
fn a_name_that_no_rule_touches_stays_in_its_column() {
    let f = filter(&[]);
    let p = part(GpioMode::AF, vec![pin("PA0", "1", vec![
        signal("EVENTOUT", SignalMap::AF(3)),
        signal("USART2_TX", SignalMap::AF(3)),
        signal("RCC_MCO", SignalMap::AF(0)),
        signal("USART2_RX", SignalMap::AF(3)),
        signal("COMP1_OUT", SignalMap::AddF),
        signal("RTC_OUT", SignalMap::AddF),
    ])]);
    let rows = write_pin_out_af(&p, &f).unwrap();
    for (name, column) in [("EVENTOUT", 3), ("RCC_MCO", 0), ("COMP1_OUT", 16), ("RTC_OUT", 16)] {
        for c in 0..17 {
            let found = rows[0][2 + c].split(' ').any(|token| token == name);
            assert_eq!(found, c == column, "{} {}", name, c);
        }
    }
    assert_eq!(rows[0][2 + 3], "U2_TX/RX EVENTOUT");
    assert_eq!(rows[0][2 + 16], "COMP1_OUT RTC_OUT");
}

#[test]
fn filter_column_merges_the_signals_of_one_peripheral() {
    let f = filter(&[]);
    assert_eq!(
        f.filter_column(&strings(&["USART2_TX", "USART2_RX", "USART2_CK"])),
        strings(&["U2_TX/RX/CK"])
    );
    assert_eq!(
        f.filter_column(&strings(&["TIM1_CH1", "TIM2_CH1", "TIM1_CH2"])),
        strings(&["T1_CH1/CH2", "T2_CH1"])
    );
    assert_eq!(
        f.filter_column(&strings(&["SPI1_MOSI", "I2S1_SD"])),
        strings(&["S1_MOSI/SD"])
    );
}

#[test]
fn filter_column_merges_adc_inputs() {
    let f = filter(&[]);
    assert_eq!(
        f.filter_column(&strings(&["ADC1_IN5", "ADC2_IN5", "ADC1_IN6"])),
        strings(&["ADC12_IN5", "ADC1_IN6"])
    );
    assert_eq!(f.filter_column(&strings(&["ADC1_IN5", "ADC1_IN6"])), strings(&["ADC1_IN56"]));
    assert_eq!(
        f.filter_column(&strings(&["ADC1_INP5", "ADC2_INP5", "ADC1_INN1"])),
        strings(&["ADC12_INP5", "ADC1_INN1"])
    );
    assert_eq!(f.filter_column(&strings(&["ADC_IN0", "ADC_IN1"])), strings(&["ADC_IN0", "ADC_IN1"]));
}

#[test]
fn filter_column_merges_break_inputs_of_comparators() {
    let f = filter(&[]);
    assert_eq!(
        f.filter_column(&strings(&["TIM1_BKIN_COMP1", "TIM1_BKIN_COMP2"])),
        strings(&["T1_B_COMP12"])
    );
    assert_eq!(
        f.filter_column(&strings(&["TIM1_BKIN2_COMP1", "TIM1_BKIN2_COMP2", "TIM1_BKIN_COMP1"])),
        strings(&["T1_B2_COMP12/B_COMP1"])
    );
}

#[test]
fn filter_column_puts_merged_names_before_the_others() {
    let f = filter(&[]);
    assert_eq!(
        f.filter_column(&strings(&["PA0", "USART2_TX", "RCC_OSC_IN", "ADC1_IN1"])),
        strings(&["U2_TX", "ADC1_IN1", "PA0", "RCC_OSC_IN"])
    );
    assert_eq!(f.filter_column(&Vec::new()), Vec::<String>::new());
}

#[test]
fn filter_column_drops_what_an_exclusion_matches() {
    let f = filter(&["ADC", "T(IM)?"]);
    assert_eq!(
        f.filter_column(&strings(&["ADC1_IN5", "ADC_IN0", "ADCX", "TIM1_CH1", "T1", "TX", "USART1_TX"])),
        strings(&["U1_TX", "ADCX", "TX"])
    );
    // An exclusion sees the shortened name, not the one of the descriptor.
    assert_eq!(filter(&["USART"]).filter_column(&strings(&["USART1_TX"])), strings(&["U1_TX"]));
    assert_eq!(filter(&["U"]).filter_column(&strings(&["USART1_TX"])), Vec::<String>::new());
    // A fragment counts only at the start of a name, with a digit or an
    // underscore next.
    assert_eq!(filter(&["DC"]).filter_column(&strings(&["ADC1_IN5"])), strings(&["ADC1_IN5"]));
    assert_eq!(filter(&["AD"]).filter_column(&strings(&["ADC1_IN5"])), strings(&["ADC1_IN5"]));
    assert_eq!(filter(&["a|ADC"]).filter_column(&strings(&["ADC1_IN5"])), Vec::<String>::new());
}

#[test]
fn exclusion_has_the_last_word() {
    // What a factorization has merged is dropped as a whole.
    let f = filter(&["S"]);
    assert_eq!(
        f.filter_column(&strings(&["SPI1_MOSI", "SPI1_MISO", "I2C1_SDA"])),
        strings(&["I2C1_SDA"])
    );
    let f = filter(&["ADC"]);
    assert_eq!(f.filter_column(&strings(&["ADC1_IN5", "ADC2_IN5"])), Vec::<String>::new());
    for exclude in [vec![], vec!["ADC"], vec!["S", "T"], vec!["[A-Z]+"]] {
        let f = filter(&exclude);
        let out = f.filter_column(&strings(&["ADC1_IN5", "SPI1_MOSI", "TIM1_CH1", "PA0", "I2C1_SDA"]));
        for name in &out {
            for fragment in &exclude {
                let re = regex::Regex::new(&format!("^(?:{})[0-9_]", fragment)).unwrap();
                assert!(!re.is_match(name), "{} {}", fragment, name);
            }
        }
    }
}

#[test]
fn exclusion_sees_the_merged_name_not_its_parts() {
    // Alone, the second input is dropped; merged with the first it stands in
    // a name that the exclusion does not match.
    let f = filter(&["ADC2"]);
    assert_eq!(f.filter_column(&strings(&["ADC2_IN5"])), Vec::<String>::new());
    assert_eq!(f.filter_column(&strings(&["ADC1_IN5", "ADC2_IN5"])), strings(&["ADC12_IN5"]));
    // And a merged name that the exclusion matches takes all its parts along.
    let f = filter(&["ADC1"]);
    assert_eq!(f.filter_column(&strings(&["ADC1_IN5", "ADC2_IN5"])), Vec::<String>::new());
}

#[test]
fn an_excluded_signal_leaves_its_cell_empty() {
    let p = part(GpioMode::AF, vec![pin("PA5", "11", vec![signal("ADC1_IN5", SignalMap::AddF)])]);
    let rows = render(&p, &filter(&["ADC"])).unwrap();
    assert_eq!(rows, vec![af_row("PA5", "11", &[])]);
    let rows = render(&p, &filter(&[])).unwrap();
    assert_eq!(rows, vec![af_row("PA5", "11", &[(16, "ADC1_IN5")])]);
}

#[test]
fn signal_filter_filters_each_column_by_itself() {
    let f = filter(&["ADC"]);
    let cols = vec![
        strings(&["USART2_TX", "ADC1_IN1"]),
        Vec::new(),
        strings(&["USART2_RX"]),
    ];
    assert_eq!(f.signal_filter("PA0", "1", &cols), vec![
        strings(&["U2_TX"]),
        Vec::new(),
        strings(&["U2_RX"]),
    ]);
    assert_eq!(f.signal_filter("", "", &Vec::new()), Vec::<Vec<String>>::new());
}

#[test]
fn bucket_names_lists_the_signals_of_a_column() {
    let signals = vec![
        signal("A", SignalMap::AF(0)),
        signal("B", SignalMap::AddF),
        signal("C", SignalMap::AF(15)),
        signal("D", SignalMap::AF(0)),
        signal("E", SignalMap::AF(16)),
        signal("F", SignalMap::Remap(vec![0])),
    ];
    assert_eq!(bucket_names(&signals, 0), strings(&["A", "D"]));
    assert_eq!(bucket_names(&signals, 15), strings(&["C"]));
    assert_eq!(bucket_names(&signals, 16), strings(&["B", "E"]));
    for c in 1..15 {
        assert!(bucket_names(&signals, c).is_empty());
    }
}

#[test]
fn a_signal_stands_in_the_column_of_its_alternate_function_only() {
    for k in 0..=15u8 {
        let p = part(GpioMode::AF, vec![pin("PA0", "1", vec![signal("X", SignalMap::AF(k))])]);
        let rows = write_pin_out_af(&p, &filter(&[])).unwrap();
        assert_eq!(rows, vec![af_row("PA0", "1", &[(k as usize, "X")])]);
    }
    let p = part(GpioMode::AF, vec![pin("PA0", "1", vec![signal("X", SignalMap::AddF)])]);
    assert_eq!(write_pin_out_af(&p, &filter(&[])).unwrap(), vec![af_row("PA0", "1", &[(16, "X")])]);
}

#[test]
fn write_pin_out_af_gives_a_row_of_19_cells_for_each_pin() {
    let p = part(GpioMode::AF, vec![
        pin("VDD", "1", Vec::new()),
        pin("PA0", "6", vec![
            signal("ADC_IN0", SignalMap::AddF),
            signal("TIM2_CH1", SignalMap::AF(1)),
            signal("USART2_TX", SignalMap::AF(7)),
            signal("TIM2_ETR", SignalMap::AF(1)),
            signal("USART2_CTS", SignalMap::AF(7)),
            signal("RTC_TAMP2", SignalMap::AddF),
        ]),
        pin("PA1", "A7", vec![signal("EVENTOUT", SignalMap::AF(15))]),
    ]);
    let rows = write_pin_out_af(&p, &filter(&[])).unwrap();
    assert_eq!(rows, vec![
        af_row("VDD", "1", &[]),
        af_row("PA0", "6", &[(1, "T2_CH1/ETR"), (7, "U2_TX/CTS"), (16, "ADC_IN0 RTC_TAMP2")]),
        af_row("PA1", "A7", &[(15, "EVENTOUT")]),
    ]);
    assert_eq!(write_pin_out_af(&part(GpioMode::AF, Vec::new()), &filter(&[])).unwrap().len(), 0);
}

#[test]
fn write_pin_out_af_refuses_a_remap() {
    let p = part(GpioMode::AF, vec![
        pin("PA0", "1", vec![signal("A", SignalMap::AF(1))]),
        pin("PA1", "2", vec![signal("B", SignalMap::AddF), signal("C", SignalMap::Remap(Vec::new()))]),
    ]);
    assert!(matches!(write_pin_out_af(&p, &filter(&[])), Err(Failure::ModeMismatch)));
    assert!(matches!(render(&p, &filter(&[])), Err(Failure::ModeMismatch)));
    assert!(matches!(write_pin_out(&p, &filter(&[])), Err(Failure::ModeMismatch)));
}

#[test]
fn slots_in_range_tells_whether_every_number_has_a_column() {
    let good = part(GpioMode::AF, vec![pin("PA0", "1", vec![
        signal("A", SignalMap::AF(16)),
        signal("B", SignalMap::AddF),
        signal("C", SignalMap::Remap(vec![200])),
    ])]);
    assert!(good.slots_in_range());
    let bad = part(GpioMode::AF, vec![
        pin("PA0", "1", vec![signal("A", SignalMap::AF(0))]),
        pin("PA1", "2", vec![signal("B", SignalMap::AddF), signal("C", SignalMap::AF(17))]),
    ]);
    assert!(!bad.slots_in_range());
    assert!(part(GpioMode::AF, Vec::new()).slots_in_range());
}

#[test]
fn label_lists_the_remaps_in_ascending_order() {
    assert_eq!(label(&signal("NAME", SignalMap::Remap(vec![3, 1, 2]))), "NAME(1,2,3)");
    assert_eq!(label(&signal("NAME", SignalMap::Remap(vec![1, 2, 3]))), "NAME(1,2,3)");
    assert_eq!(label(&signal("NAME", SignalMap::Remap(vec![2, 3, 1]))), "NAME(1,2,3)");
    assert_eq!(label(&signal("SPI1_MOSI", SignalMap::Remap(vec![0, 2]))), "SPI1_MOSI(0,2)");
    assert_eq!(label(&signal("S", SignalMap::Remap(vec![10, 9, 100, 9]))), "S(9,9,10,100)");
    assert_eq!(label(&signal("S", SignalMap::Remap(vec![0]))), "S(0)");
    assert_eq!(label(&signal("S", SignalMap::Remap(Vec::new()))), "S()");
    assert_eq!(label(&signal("S", SignalMap::AddF)), "S");
    assert_eq!(label(&signal("S", SignalMap::AF(3))), "S");
}

#[test]
fn name_category_is_what_stands_before_the_first_underscore() {
    assert_eq!(name_category("S1_MOSI(0,2)"), "S1");
    assert_eq!(name_category("BOOT1"), "BOOT1");
    assert_eq!(name_category("A_B_C"), "A");
    assert_eq!(name_category("_X"), "");
    assert_eq!(name_category(""), "");
}

#[test]
fn write_pin_out_remap_has_a_column_for_each_category() {
    let p = part(GpioMode::Remap, vec![
        pin("PB2", "20", vec![
            signal("SPI1_MOSI", SignalMap::Remap(vec![2, 0])),
            signal("I2C1_SMBA", SignalMap::Remap(Vec::new())),
            signal("BOOT1", SignalMap::AddF),
            signal("TIM1_CH1", SignalMap::Remap(vec![3])),
        ]),
        pin("VSS", "23", Vec::new()),
        pin("PB3", "B4", vec![
            signal("SPI1_SCK", SignalMap::Remap(vec![1])),
            signal("ADC1_IN9", SignalMap::Remap(vec![0])),
            signal("SPI1_NSS", SignalMap::Remap(vec![1])),
        ]),
    ]);
    let rows = write_pin_out_remap(&p, &filter(&[]));
    // The columns after name and position: ADC1, BOOT1, I2C1, S1, T1.
    assert_eq!(rows, vec![
        strings(&["PB2", "20", "", "BOOT1", "I2C1_SMBA()", "S1_MOSI(0,2)", "T1_CH1(3)"]),
        strings(&["VSS", "23", "", "", "", "", ""]),
        strings(&["PB3", "B4", "ADC1_IN9(0)", "", "", "S1_SCK(1)/NSS(1)", ""]),
    ]);
    assert_eq!(render(&p, &filter(&[])).unwrap(), rows);
    let rows = write_pin_out_remap(&p, &filter(&["S", "ADC", "BOOT1"]));
    assert_eq!(rows, vec![
        strings(&["PB2", "20", "BOOT1", "I2C1_SMBA()", "T1_CH1(3)"]),
        strings(&["VSS", "23", "", "", ""]),
        strings(&["PB3", "B4", "", "", ""]),
    ]);
}

#[test]
fn write_pin_out_remap_joins_the_names_of_a_category_with_spaces() {
    let p = part(GpioMode::Remap, vec![pin("PA0", "1", vec![
        signal("CAN_RX", SignalMap::Remap(vec![1])),
        signal("X", SignalMap::AddF),
        signal("CAN_TX", SignalMap::Remap(vec![1, 0])),
        signal("CAN", SignalMap::AF(3)),
    ])]);
    assert_eq!(write_pin_out_remap(&p, &filter(&[])), vec![strings(&[
        "PA0",
        "1",
        "CAN_RX(1) CAN_TX(0,1) CAN",
        "X",
    ])]);
    assert_eq!(write_pin_out_remap(&part(GpioMode::Remap, Vec::new()), &filter(&[])).len(), 0);
    assert_eq!(
        write_pin_out_remap(&part(GpioMode::Remap, vec![pin("PA0", "1", Vec::new())]), &filter(&[])),
        vec![strings(&["PA0", "1"])]
    );
}

#[test]
fn render_is_the_same_for_the_same_part_and_filter() {
    let p = part(GpioMode::AF, vec![pin("PA0", "6", vec![
        signal("USART2_TX", SignalMap::AF(7)),
        signal("USART2_RX", SignalMap::AF(7)),
        signal("ADC1_IN0", SignalMap::AddF),
        signal("ADC2_IN0", SignalMap::AddF),
    ])]);
    let first = render(&p, &filter(&[])).unwrap();
    for _ in 0..20 {
        assert_eq!(render(&p, &filter(&[])).unwrap(), first);
    }
    assert_eq!(first, vec![af_row("PA0", "6", &[(7, "U2_TX/RX"), (16, "ADC12_IN0")])]);
}

#[test]
fn write_pin_out_writes_one_csv_record_for_each_pin() {
    let p = part(GpioMode::Remap, vec![
        pin("PB2", "20", vec![
            signal("SPI1_MOSI", SignalMap::Remap(vec![2, 0])),
            signal("BOOT1", SignalMap::AddF),
        ]),
        pin("P\"B", "2 1", vec![signal("BOOT1", SignalMap::AddF)]),
    ]);
    let bytes = write_pin_out(&p, &filter(&[])).unwrap();
    assert_eq!(
        String::from_utf8(bytes).unwrap(),
        "PB2,20,BOOT1,\"S1_MOSI(0,2)\"\n\"P\"\"B\",2 1,BOOT1,\n"
    );
    let p = part(GpioMode::AF, vec![pin("PA0", "6", vec![signal("USART2_TX", SignalMap::AF(7))])]);
    let bytes = write_pin_out(&p, &filter(&[])).unwrap();
    assert_eq!(String::from_utf8(bytes).unwrap(), "PA0,6,,,,,,,,U2_TX,,,,,,,,,\n");
    let empty = write_pin_out(&part(GpioMode::AF, Vec::new()), &filter(&[])).unwrap();
    assert!(empty.is_empty());
}

#[test]
fn an_alternate_function_from_the_descriptors_lands_in_its_column() {
    let gpio = XmlDocument::parse(
        "<IP><GPIO_Pin Name='PA0'><PinSignal Name='USART2_TX'>\
         <SpecificParameter Name='GPIO_AF'><PossibleValue>GPIO_AF7_USART2</PossibleValue>\
         </SpecificParameter></PinSignal></GPIO_Pin></IP>",
    )
    .unwrap();
    let descriptor = XmlDocument::parse(
        "<Mcu Line='L' Package='K'><IP Name='GPIO' Version='v'/>\
         <Pin Name='PA0' Position='0'><Signal Name='USART2_TX'/><Signal Name='GPIO'/></Pin></Mcu>",
    )
    .unwrap();
    let p = PartInfo::new("P", &descriptor, &gpio).unwrap();
    assert_eq!(p.gpio_mode, GpioMode::AF);
    assert!(matches!(p.pins[0].signals[0].map, SignalMap::AF(7)));
    assert_eq!(bucket_names(&p.pins[0].signals, 7), strings(&["USART2_TX"]));
    let rows = render(&p, &filter(&[])).unwrap();
    assert_eq!(rows.len(), 1);
    assert_eq!(rows[0].len(), 19);
    assert_eq!(rows[0], af_row("PA0", "0", &[(7, "U2_TX")]));
}

#[test]
fn remaps_from_the_descriptors_are_listed_with_the_signal() {
    let gpio = XmlDocument::parse(
        "<IP><GPIO_Pin Name='PB2'><PinSignal Name='SPI1_MOSI'>\
         <RemapBlock Name='SPI1_REMAP0'/><RemapBlock Name='SPI1_REMAP2'/>\
         </PinSignal></GPIO_Pin></IP>",
    )
    .unwrap();
    let descriptor = XmlDocument::parse(
        "<Mcu Line='L' Package='K'><IP Name='GPIO' Version='v'/>\
         <Pin Name='PB2' Position='20'><Signal Name='SPI1_MOSI'/></Pin></Mcu>",
    )
    .unwrap();
    let p = PartInfo::new("P", &descriptor, &gpio).unwrap();
    assert_eq!(p.gpio_mode, GpioMode::Remap);
    assert!(matches!(&p.pins[0].signals[0].map, SignalMap::Remap(r) if r == &vec![0, 2]));
    assert_eq!(label(&p.pins[0].signals[0]), "SPI1_MOSI(0,2)");
    let rows = render(&p, &filter(&[])).unwrap();
    assert_eq!(rows, vec![strings(&["PB2", "20", "S1_MOSI(0,2)"])]);
}

#[test]
fn a_shortened_name_can_equal_one_that_no_rule_touches() {
    // No rule touches the first name, and it differs from the second; yet the
    // second is shortened to it and so stands under the same words in another
    // column.
    let f = filter(&[]);
    assert_eq!(f.substitute("F_A0"), "F_A0");
    assert_eq!(f.substitute("FMC_A0"), "F_A0");
    let p = part(GpioMode::AF, vec![pin("PA0", "1", vec![
        signal("F_A0", SignalMap::AF(1)),
        signal("FMC_A0", SignalMap::AF(2)),
    ])]);
    assert_eq!(
        write_pin_out_af(&p, &f).unwrap(),
        vec![af_row("PA0", "1", &[(1, "F_A0"), (2, "F_A0")])]
    );
}
