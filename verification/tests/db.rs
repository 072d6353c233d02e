use pinout::db::{gpio_descriptor_path, list_parts, load, part_descriptor_path, read_descriptor,
    read_gziped, GpioMode, PartHeader, PartInfo, PinInfo, SignalInfo, SignalMap};
use pinout::error::{Failure, FailureKind};
use pinout::gpio::{alternate_function_number, load_gpios, remap_number};
use pinout::text::NumberFault;
use pinout::xml::XmlDocument;
use std::io::Write;

const AF_GPIO: &str = r#"<?xml version="1.0" encoding="UTF-8" standalone="no"?>
<IP xmlns="http://mcd.rou.st.com/modules.php?name=mcu" Name="GPIO" Version="STM32F031_gpio_v1_0">
  <!-- the pins -->
  <GPIO_Pin PortName="PA" Name="PA0">
    <SpecificParameter Name="GPIO_Pin">
      <PossibleValue>GPIO_PIN_0</PossibleValue>
    </SpecificParameter>
    <PinSignal Name="USART2_TX">
      <SpecificParameter Name="GPIO_AF">
        <PossibleValue>GPIO_AF7_USART2</PossibleValue>
      </SpecificParameter>
    </PinSignal>
    <PinSignal Name="TIM2_CH1">
      <SpecificParameter Name="GPIO_AF">
        <PossibleValue>GPIO_AF1_TIM2</PossibleValue>
      </SpecificParameter>
    </PinSignal>
  </GPIO_Pin>
  <GPIO_Pin PortName="PA" Name="PA1">
    <PinSignal Name="EVENTOUT">
      <SpecificParameter Name="GPIO_AF">
        <PossibleValue>GPIO_AF15_EVENTOUT</PossibleValue>
      </SpecificParameter>
    </PinSignal>
  </GPIO_Pin>
</IP>
"#;

const AF_PART: &str = r#"<?xml version="1.0" encoding="UTF-8" standalone="no"?>
<Mcu xmlns="http://mcd.rou.st.com/modules.php?name=mcu" Family="STM32F0" Line="STM32F0x1" Package="LQFP32" RefName="STM32F031K6Tx">
  <Core>Arm Cortex-M0</Core>
  <IP InstanceName="ADC" Name="ADC" Version="aditf4_v2_2_Cube"/>
  <IP InstanceName="GPIO" Name="GPIO" Version="STM32F031_gpio_v1_0"/>
  <Pin Name="VDD" Position="1" Type="Power"/>
  <Pin Name="PA0" Position="6" Type="I/O">
    <Signal Name="ADC_IN0"/>
    <Signal Name="TIM2_CH1"/>
    <Signal Name="USART2_TX"/>
    <Signal Name="GPIO"/>
  </Pin>
  <Pin Name="PA1" Position="7" Type="I/O">
    <Signal Name="EVENTOUT"/>
    <Signal Name="GPIO"/>
  </Pin>
</Mcu>
"#;

const REMAP_GPIO: &str = r#"<IP Name="GPIO" Version="STM32F103x8_gpio_v1_0">
  <GPIO_Pin Name="PB2">
    <PinSignal Name="SPI1_MOSI">
      <RemapBlock Name="SPI1_REMAP2"/>
      <RemapBlock Name="SPI1_REMAP0" DefaultRemap="true"/>
    </PinSignal>
    <PinSignal Name="TIM1_CH1">
      <RemapBlock Name="TIM1_REMAP_REMAP3">
        <SpecificParameter Name="GPIO_AF"><PossibleValue>__HAL_AFIO_REMAP</PossibleValue></SpecificParameter>
      </RemapBlock>
    </PinSignal>
    <PinSignal Name="I2C1_SMBA"/>
  </GPIO_Pin>
</IP>
"#;

const REMAP_PART: &str = r#"<Mcu Line="STM32F103" Package="LQFP48">
  <IP Name="GPIO" Version="STM32F103x8_gpio_v1_0"/>
  <Pin Name="PB2" Position="20">
    <Signal Name="SPI1_MOSI"/>
    <Signal Name="I2C1_SMBA"/>
    <Signal Name="BOOT1"/>
    <Signal Name="TIM1_CH1"/>
  </Pin>
</Mcu>
"#;

fn doc(text: &str) -> XmlDocument {
    XmlDocument::parse(text).unwrap()
}

fn gzip(text: &[u8]) -> Vec<u8> {
    let mut encoder = flate2::write::GzEncoder::new(Vec::new(), flate2::Compression::default());
    encoder.write_all(text).unwrap();
    encoder.finish().unwrap()
}

fn maps(pin: &PinInfo) -> Vec<(String, String)> {
    pin.signals.iter().map(|s| (s.name.clone(), format!("{:?}", s.map))).collect()
}

fn pair(name: &str, map: &str) -> (String, String) {
    (name.to_string(), map.to_string())
}

#[test]
fn alternate_function_number_reads_the_number_after_the_marker() {
    assert!(matches!(alternate_function_number("GPIO_AF7_USART2"), Ok(7)));
    assert!(matches!(alternate_function_number("GPIO_AF0_MCO"), Ok(0)));
    assert!(matches!(alternate_function_number("GPIO_AF15_EVENTOUT"), Ok(15)));
    assert!(matches!(alternate_function_number("GPIO_AF255_"), Ok(255)));
    assert!(matches!(alternate_function_number("GPIO_AF+3_X"), Ok(3)));
}

#[test]
fn alternate_function_number_rejects_other_texts() {
    assert!(matches!(alternate_function_number("GPIO_PIN_0"), Err(Failure::NotAlternateFunction)));
    assert!(matches!(alternate_function_number(""), Err(Failure::NotAlternateFunction)));
    assert!(matches!(alternate_function_number("GPIO_AF7"), Err(Failure::NotAlternateFunction)));
    assert!(matches!(alternate_function_number(" GPIO_AF7_X"), Err(Failure::NotAlternateFunction)));
    assert!(matches!(alternate_function_number("GPIO_AF_X"), Err(Failure::BadNumber(_))));
    assert!(matches!(alternate_function_number("GPIO_AFx_X"), Err(Failure::BadNumber(_))));
    assert!(matches!(alternate_function_number("GPIO_AF256_X"), Err(Failure::BadNumber(_))));
    assert!(matches!(
        alternate_function_number("GPIO_AF_X"),
        Err(Failure::BadNumber(NumberFault::Empty))
    ));
    assert!(matches!(
        alternate_function_number("GPIO_AFx_X"),
        Err(Failure::BadNumber(NumberFault::InvalidDigit))
    ));
    assert!(matches!(
        alternate_function_number("GPIO_AF256_X"),
        Err(Failure::BadNumber(NumberFault::TooLarge))
    ));
}

#[test]
fn remap_number_reads_what_follows_the_last_marker() {
    assert!(matches!(remap_number("SPI1_REMAP0"), Ok(0)));
    assert!(matches!(remap_number("USART3_REMAP12"), Ok(12)));
    assert!(matches!(remap_number("REMAP_REMAP3"), Ok(3)));
    assert!(matches!(remap_number("REMAP7"), Ok(7)));
}

#[test]
fn remap_number_rejects_other_names() {
    assert!(matches!(remap_number("SPI1_0"), Err(Failure::MissingRemap)));
    assert!(matches!(remap_number(""), Err(Failure::MissingRemap)));
    assert!(matches!(remap_number("remap1"), Err(Failure::MissingRemap)));
    assert!(matches!(remap_number("SPI1_REMAP"), Err(Failure::BadNumber(_))));
    assert!(matches!(remap_number("SPI1_REMAP1_X"), Err(Failure::BadNumber(_))));
    assert!(matches!(remap_number("SPI1_REMAP300"), Err(Failure::BadNumber(_))));
}

#[test]
fn load_gpios_infers_the_alternate_function_mode() {
    let (mode, pins) = load_gpios(&doc(AF_GPIO)).unwrap();
    assert_eq!(mode, GpioMode::AF);
    assert_eq!(pins.len(), 2);
    assert_eq!(pins[0].name, "PA0");
    assert_eq!(pins[0].signals.len(), 2);
    assert_eq!(pins[0].signals[0].name, "USART2_TX");
    assert!(matches!(pins[0].signals[0].map, SignalMap::AF(7)));
    assert_eq!(pins[0].signals[1].name, "TIM2_CH1");
    assert!(matches!(pins[0].signals[1].map, SignalMap::AF(1)));
    assert_eq!(pins[1].name, "PA1");
    assert!(matches!(pins[1].signals[0].map, SignalMap::AF(15)));
}

#[test]
fn load_gpios_infers_the_remap_mode_and_keeps_the_order_of_the_blocks() {
    let (mode, pins) = load_gpios(&doc(REMAP_GPIO)).unwrap();
    assert_eq!(mode, GpioMode::Remap);
    assert_eq!(pins.len(), 1);
    assert_eq!(pins[0].name, "PB2");
    let got: Vec<(String, String)> =
        pins[0].signals.iter().map(|s| (s.name.clone(), format!("{:?}", s.map))).collect();
    assert_eq!(got, vec![
        pair("SPI1_MOSI", "Remap([2, 0])"),
        pair("TIM1_CH1", "Remap([3])"),
        pair("I2C1_SMBA", "Remap([])"),
    ]);
}

#[test]
fn load_gpios_without_signals_is_alternate_function() {
    let (mode, pins) = load_gpios(&doc("<IP><GPIO_Pin Name='PA0'/><Other/></IP>")).unwrap();
    assert_eq!(mode, GpioMode::AF);
    assert_eq!(pins.len(), 1);
    assert!(pins[0].signals.is_empty());
    let (mode, pins) = load_gpios(&doc("<IP/>")).unwrap();
    assert_eq!(mode, GpioMode::AF);
    assert!(pins.is_empty());
}

#[test]
fn the_first_signal_decides_the_mode_for_all() {
    // The first signal has no remap block, so the later one is read as an
    // alternate function too, and has none.
    let text = "<IP><GPIO_Pin Name='PA0'/><GPIO_Pin Name='PA1'>\
        <PinSignal Name='A'><PossibleValue>GPIO_AF2_A</PossibleValue></PinSignal>\
        <PinSignal Name='B'><RemapBlock Name='B_REMAP1'/></PinSignal></GPIO_Pin></IP>";
    assert!(matches!(load_gpios(&doc(text)), Err(Failure::NoAlternateFunction)));
    // The first signal has a remap block, so the later one is read by its
    // remap blocks, of which it has none.
    let text = "<IP><GPIO_Pin Name='PA1'>\
        <PinSignal Name='B'><RemapBlock Name='B_REMAP1'/></PinSignal>\
        <PinSignal Name='A'><PossibleValue>GPIO_AF2_A</PossibleValue></PinSignal></GPIO_Pin></IP>";
    let (mode, pins) = load_gpios(&doc(text)).unwrap();
    assert_eq!(mode, GpioMode::Remap);
    assert!(matches!(&pins[0].signals[1].map, SignalMap::Remap(r) if r.is_empty()));
}

#[test]
fn load_gpios_reports_the_first_fault() {
    let missing = |text: &str, tag: &str, attribute: &str| match load_gpios(&doc(text)) {
        Err(Failure::MissingAttribute { tag: t, attribute: a }) => {
            assert_eq!((t.as_str(), a.as_str()), (tag, attribute))
        },
        other => panic!("{:?}", other.map(|_| ())),
    };
    missing("<IP><GPIO_Pin/></IP>", "GPIO_Pin", "Name");
    missing(
        "<IP><GPIO_Pin Name='P'><PinSignal><PossibleValue>GPIO_AF1_X</PossibleValue></PinSignal></GPIO_Pin></IP>",
        "PinSignal",
        "Name",
    );
    missing(
        "<IP><GPIO_Pin Name='P'><PinSignal Name='S'><RemapBlock/></PinSignal></GPIO_Pin></IP>",
        "RemapBlock",
        "Name",
    );
    let fails = |text: &str| load_gpios(&doc(text)).map(|_| ());
    assert!(matches!(
        fails("<IP><GPIO_Pin Name='P'><PinSignal Name='S'/></GPIO_Pin></IP>"),
        Err(Failure::NoAlternateFunction)
    ));
    assert!(matches!(
        fails("<IP><GPIO_Pin Name='P'><PinSignal Name='S'><PossibleValue/></PinSignal></GPIO_Pin></IP>"),
        Err(Failure::NoAlternateFunctionText)
    ));
    assert!(matches!(
        fails("<IP><GPIO_Pin Name='P'><PinSignal Name='S'><PossibleValue>AF1</PossibleValue></PinSignal></GPIO_Pin></IP>"),
        Err(Failure::NotAlternateFunction)
    ));
    assert!(matches!(
        fails("<IP><GPIO_Pin Name='P'><PinSignal Name='S'><PossibleValue>GPIO_AFx_</PossibleValue></PinSignal></GPIO_Pin></IP>"),
        Err(Failure::BadNumber(_))
    ));
    assert!(matches!(
        fails("<IP><GPIO_Pin Name='P'><PinSignal Name='S'><RemapBlock Name='X'/></PinSignal></GPIO_Pin></IP>"),
        Err(Failure::MissingRemap)
    ));
    assert!(matches!(
        fails("<IP><GPIO_Pin Name='P'><PinSignal Name='S'><RemapBlock Name='REMAPx'/></PinSignal></GPIO_Pin></IP>"),
        Err(Failure::BadNumber(_))
    ));
    // The mapping is decoded before the signal's name is asked for.
    assert!(matches!(
        fails("<IP><GPIO_Pin Name='P'><PinSignal/></GPIO_Pin></IP>"),
        Err(Failure::NoAlternateFunction)
    ));
}

#[test]
fn the_alternate_function_is_the_first_possible_value_below_the_signal() {
    let text = "<IP><GPIO_Pin Name='P'><PossibleValue>GPIO_AF9_NO</PossibleValue>\
        <PinSignal Name='S'><A><B><PossibleValue>GPIO_AF3_X</PossibleValue></B></A>\
        <PossibleValue>GPIO_AF4_X</PossibleValue></PinSignal>\
        <PinSignal Name='T'><A/><PossibleValue>GPIO_AF5_X</PossibleValue></PinSignal>\
        </GPIO_Pin></IP>";
    let (_, pins) = load_gpios(&doc(text)).unwrap();
    assert!(matches!(pins[0].signals[0].map, SignalMap::AF(3)));
    assert!(matches!(pins[0].signals[1].map, SignalMap::AF(5)));
}

#[test]
fn only_children_count_as_pins_signals_and_blocks() {
    let text = "<IP><Group><GPIO_Pin Name='deep'/></Group><GPIO_Pin Name='P'>\
        <X><PinSignal Name='deep'><RemapBlock Name='REMAP1'/></PinSignal></X>\
        <PinSignal Name='S'><X><RemapBlock Name='REMAP9'/></X><RemapBlock Name='REMAP1'/></PinSignal>\
        </GPIO_Pin></IP>";
    let (mode, pins) = load_gpios(&doc(text)).unwrap();
    assert_eq!(mode, GpioMode::Remap);
    assert_eq!(pins.len(), 1);
    assert_eq!(pins[0].signals.len(), 1);
    assert!(matches!(&pins[0].signals[0].map, SignalMap::Remap(r) if r == &vec![1]));
}

#[test]
fn part_header_reads_line_package_and_version() {
    let header = PartHeader::read(&doc(AF_PART)).unwrap();
    assert_eq!(header.line, "STM32F0x1");
    assert_eq!(header.package, "LQFP32");
    assert_eq!(header.gpio_version, "STM32F031_gpio_v1_0");
}

#[test]
fn part_header_reports_what_is_missing_in_order() {
    let missing = |text: &str, tag: &str, attribute: &str| match PartHeader::read(&doc(text)) {
        Err(Failure::MissingAttribute { tag: t, attribute: a }) => {
            assert_eq!((t.as_str(), a.as_str()), (tag, attribute))
        },
        other => panic!("{:?}", other.map(|_| ())),
    };
    missing("<Mcu/>", "Mcu", "Line");
    missing("<Mcu Package='P'/>", "Mcu", "Line");
    missing("<Mcu Line='L'/>", "Mcu", "Package");
    missing("<Mcu Line='L' Package='P'><IP Name='GPIO'/></Mcu>", "IP", "Version");
    let absent = |text: &str| matches!(PartHeader::read(&doc(text)), Err(Failure::MissingGpio));
    assert!(absent("<Mcu Line='L' Package='P'/>"));
    assert!(absent("<Mcu Line='L' Package='P'><IP Name='ADC' Version='1'/></Mcu>"));
    assert!(absent("<Mcu Line='L' Package='P'><IP Version='1'/></Mcu>"));
    assert!(absent("<Mcu Line='L' Package='P'><X><IP Name='GPIO' Version='1'/></X></Mcu>"));
    assert!(absent("<Mcu Line='L' Package='P'><GPIO Name='GPIO' Version='1'/></Mcu>"));
}

#[test]
fn part_header_takes_the_first_gpio_block() {
    let text = "<Mcu Line='L' Package='P'><IP Name='GPIO' Version='a'/><IP Name='GPIO' Version='b'/></Mcu>";
    assert_eq!(PartHeader::read(&doc(text)).unwrap().gpio_version, "a");
}

#[test]
fn new_joins_the_pins_with_the_gpio_descriptor() {
    let part = PartInfo::new("STM32F031K6Tx", &doc(AF_PART), &doc(AF_GPIO)).unwrap();
    assert_eq!(part.part, "STM32F031K6Tx");
    assert_eq!(part.line, "STM32F0x1");
    assert_eq!(part.package, "LQFP32");
    assert_eq!(part.gpio_mode, GpioMode::AF);
    assert_eq!(part.pins.len(), 3);
    assert_eq!((part.pins[0].name.as_str(), part.pins[0].position.as_str()), ("VDD", "1"));
    assert!(part.pins[0].signals.is_empty());
    assert_eq!((part.pins[1].name.as_str(), part.pins[1].position.as_str()), ("PA0", "6"));
    assert_eq!(maps(&part.pins[1]), vec![
        pair("ADC_IN0", "AddF"),
        pair("TIM2_CH1", "AF(1)"),
        pair("USART2_TX", "AF(7)"),
    ]);
    assert_eq!((part.pins[2].name.as_str(), part.pins[2].position.as_str()), ("PA1", "7"));
    assert_eq!(maps(&part.pins[2]), vec![pair("EVENTOUT", "AF(15)")]);
}

#[test]
fn new_reads_a_remap_part() {
    let part = PartInfo::new("STM32F103C8Tx", &doc(REMAP_PART), &doc(REMAP_GPIO)).unwrap();
    assert_eq!(part.gpio_mode, GpioMode::Remap);
    assert_eq!(part.pins.len(), 1);
    assert_eq!(maps(&part.pins[0]), vec![
        pair("SPI1_MOSI", "Remap([2, 0])"),
        pair("I2C1_SMBA", "Remap([])"),
        pair("BOOT1", "AddF"),
        pair("TIM1_CH1", "Remap([3])"),
    ]);
}

#[test]
fn a_pin_that_the_gpio_descriptor_lacks_has_additional_functions_only() {
    let part_text = "<Mcu Line='L' Package='P'><IP Name='GPIO' Version='v'/>\
        <Pin Name='PC13' Position='2'><Signal Name='USART2_TX'/><Signal Name='RTC_OUT'/></Pin></Mcu>";
    let part = PartInfo::new("x", &doc(part_text), &doc(AF_GPIO)).unwrap();
    assert_eq!(maps(&part.pins[0]), vec![pair("USART2_TX", "AddF"), pair("RTC_OUT", "AddF")]);
}

#[test]
fn the_last_entry_of_a_name_counts() {
    let gpio = "<IP><GPIO_Pin Name='PA0'>\
        <PinSignal Name='S'><PossibleValue>GPIO_AF1_S</PossibleValue></PinSignal>\
        <PinSignal Name='T'><PossibleValue>GPIO_AF2_T</PossibleValue></PinSignal>\
        </GPIO_Pin><GPIO_Pin Name='PA0'>\
        <PinSignal Name='S'><PossibleValue>GPIO_AF3_S</PossibleValue></PinSignal>\
        <PinSignal Name='S'><PossibleValue>GPIO_AF4_S</PossibleValue></PinSignal>\
        </GPIO_Pin></IP>";
    let part_text = "<Mcu Line='L' Package='P'><IP Name='GPIO' Version='v'/>\
        <Pin Name='PA0' Position='1'><Signal Name='S'/><Signal Name='T'/></Pin></Mcu>";
    let part = PartInfo::new("x", &doc(part_text), &doc(gpio)).unwrap();
    assert_eq!(maps(&part.pins[0]), vec![pair("S", "AF(4)"), pair("T", "AddF")]);
}

#[test]
fn new_reports_the_first_fault() {
    let gpio = doc(AF_GPIO);
    let missing = |text: &str, tag: &str, attribute: &str| match PartInfo::new("x", &doc(text), &gpio) {
        Err(Failure::MissingAttribute { tag: t, attribute: a }) => {
            assert_eq!((t.as_str(), a.as_str()), (tag, attribute))
        },
        other => panic!("{:?}", other.map(|_| ())),
    };
    let head = "<Mcu Line='L' Package='P'><IP Name='GPIO' Version='v'/>";
    missing(&format!("{}<Pin Position='1'/></Mcu>", head), "Pin", "Name");
    missing(&format!("{}<Pin Name='PA0'/></Mcu>", head), "Pin", "Position");
    missing(&format!("{}<Pin Name='PA0' Position='1'><Signal/></Pin></Mcu>", head), "Signal", "Name");
    missing(
        &format!("{}<Pin Name='PA0' Position='1'/><Pin Name='PA1'/><Pin/></Mcu>", head),
        "Pin",
        "Position",
    );
    // A fault of the header comes before one of the GPIO descriptor, and that
    // one before one of the pins.
    let bad_gpio = doc("<IP><GPIO_Pin/></IP>");
    assert!(matches!(
        PartInfo::new("x", &doc("<Mcu Line='L' Package='P'><Pin/></Mcu>"), &bad_gpio),
        Err(Failure::MissingGpio)
    ));
    match PartInfo::new("x", &doc(&format!("{}<Pin/></Mcu>", head)), &bad_gpio) {
        Err(Failure::MissingAttribute { tag, .. }) => assert_eq!(tag, "GPIO_Pin"),
        other => panic!("{:?}", other.map(|_| ())),
    }
}

#[test]
fn summary_is_part_line_and_package() {
    let part = PartInfo::new("STM32F031K6Tx", &doc(AF_PART), &doc(AF_GPIO)).unwrap();
    assert_eq!(part.summary(), "STM32F031K6Tx: STM32F0x1 LQFP32");
    let empty = PartInfo {
        part: String::new(),
        line: String::new(),
        package: String::new(),
        gpio_mode: GpioMode::AF,
        pins: Vec::new(),
    };
    assert_eq!(empty.summary(), ":  ");
}

#[test]
fn descriptor_paths_follow_the_layout_of_the_database() {
    assert_eq!(part_descriptor_path("STM32F031K6Tx"), "mcu/STM32F031K6Tx.xml.gz");
    assert_eq!(
        gpio_descriptor_path("STM32F031_gpio_v1_0"),
        "mcu/IP/GPIO-STM32F031_gpio_v1_0_Modes.xml.gz"
    );
    assert_eq!(part_descriptor_path(""), "mcu/.xml.gz");
    assert_eq!(gpio_descriptor_path(""), "mcu/IP/GPIO-_Modes.xml.gz");
}

#[test]
fn read_gziped_inflates_the_text() {
    assert_eq!(read_gziped(&gzip(AF_PART.as_bytes())).unwrap(), AF_PART);
    assert_eq!(read_gziped(&gzip(b"")).unwrap(), "");
}

#[test]
fn read_gziped_rejects_what_is_no_gzip_stream_or_no_text() {
    assert!(matches!(read_gziped(AF_PART.as_bytes()), Err(Failure::Gzip(_))));
    assert!(matches!(read_gziped(&gzip(&[0xff, 0xfe, 0x00])), Err(Failure::Gzip(_))));
    let mut cut = gzip(AF_PART.as_bytes());
    cut.truncate(cut.len() / 2);
    assert!(matches!(read_gziped(&cut), Err(Failure::Gzip(_))));
}

#[test]
fn read_descriptor_inflates_and_parses() {
    let got = read_descriptor(&gzip(b"<a b='c'/>")).unwrap();
    assert_eq!(got.nodes.len(), 2);
    assert_eq!(got.nodes[1].tag, "a");
    assert!(matches!(read_descriptor(b"<a/>"), Err(Failure::Gzip(_))));
    assert!(matches!(read_descriptor(&gzip(b"<a>")), Err(Failure::Xml(_))));
    assert!(matches!(read_descriptor(&gzip(b"")), Err(Failure::Xml(_))));
}

#[test]
fn load_builds_the_part_from_the_two_streams() {
    let part = load("STM32F031K6Tx", &gzip(AF_PART.as_bytes()), &gzip(AF_GPIO.as_bytes())).unwrap();
    assert_eq!(part.summary(), "STM32F031K6Tx: STM32F0x1 LQFP32");
    assert_eq!(part.pins.len(), 3);
    assert_eq!(maps(&part.pins[1])[2], pair("USART2_TX", "AF(7)"));
}

#[test]
fn load_gives_the_same_part_for_the_same_bytes() {
    let a = gzip(AF_PART.as_bytes());
    let b = gzip(AF_GPIO.as_bytes());
    let first = load("p", &a, &b).unwrap();
    let second = load("p", &a, &b).unwrap();
    assert_eq!(format!("{:?}", first), format!("{:?}", second));
}

#[test]
fn load_reports_faults_in_the_order_of_the_stages() {
    let good = gzip(AF_GPIO.as_bytes());
    let headless = gzip(b"<Mcu Line='L'/>");
    assert!(matches!(load("p", b"junk", b"junk"), Err(Failure::Gzip(_))));
    assert!(matches!(load("p", &gzip(b"<Mcu"), b"junk"), Err(Failure::Xml(_))));
    assert!(matches!(load("p", &headless, b"junk"), Err(Failure::MissingAttribute { .. })));
    assert!(matches!(load("p", &gzip(AF_PART.as_bytes()), b"junk"), Err(Failure::Gzip(_))));
    assert!(matches!(load("p", &gzip(AF_PART.as_bytes()), &gzip(b"<IP")), Err(Failure::Xml(_))));
    assert!(load("p", &gzip(AF_PART.as_bytes()), &good).is_ok());
}

#[test]
fn list_parts_keeps_the_descriptors_that_match() {
    let names: Vec<String> = ["STM32F030F4Px.xml.gz", "IP", "STM32F103C8Tx.xml.gz", "families.xml",
        "STM32F031K6Tx.xml.gz", ".xml.gz", "STM32F0.xml.gz.bak", "xSTM32F0.XML.GZ"]
        .iter()
        .map(|s| s.to_string())
        .collect();
    assert_eq!(list_parts(&names, "F03").unwrap(), vec!["STM32F030F4Px", "STM32F031K6Tx"]);
    assert_eq!(list_parts(&names, "^STM32F1").unwrap(), vec!["STM32F103C8Tx"]);
    assert_eq!(list_parts(&names, "Tx$").unwrap(), vec!["STM32F103C8Tx", "STM32F031K6Tx"]);
    assert_eq!(list_parts(&names, "xml").unwrap(), Vec::<String>::new());
    assert_eq!(list_parts(&names, "^$").unwrap(), vec![""]);
    assert_eq!(list_parts(&names, "").unwrap(), vec![
        "STM32F030F4Px",
        "STM32F103C8Tx",
        "STM32F031K6Tx",
        "",
    ]);
    assert_eq!(list_parts(&Vec::new(), "F0").unwrap(), Vec::<String>::new());
}

#[test]
fn list_parts_rejects_a_malformed_pattern() {
    assert!(matches!(list_parts(&Vec::new(), "("), Err(Failure::Pattern(_))));
    assert!(matches!(list_parts(&vec!["a.xml.gz".to_string()], "[a"), Err(Failure::Pattern(_))));
}

#[test]
fn faults_have_a_family_and_words() {
    let missing = Failure::MissingAttribute { tag: "Pin".to_string(), attribute: "Name".to_string() };
    assert_eq!(missing.message(), "Pin missing a Name attribute");
    assert_eq!(missing.kind(), FailureKind::Structure);
    assert_eq!(Failure::MissingGpio.message(), "missing GPIO");
    assert_eq!(Failure::MissingGpio.kind(), FailureKind::Structure);
    assert_eq!(Failure::NoAlternateFunction.message(), "no AF found");
    assert_eq!(Failure::NoAlternateFunctionText.message(), "no AF text");
    assert_eq!(Failure::NotAlternateFunction.message(), "not an AF");
    assert_eq!(Failure::MissingRemap.message(), "missing REMAP");
    assert_eq!(
        Failure::BadNumber(NumberFault::Empty).message(),
        "".parse::<u8>().unwrap_err().to_string()
    );
    assert_eq!(
        Failure::BadNumber(NumberFault::InvalidDigit).message(),
        "x".parse::<u8>().unwrap_err().to_string()
    );
    assert_eq!(
        Failure::BadNumber(NumberFault::TooLarge).message(),
        "256".parse::<u8>().unwrap_err().to_string()
    );
    for fault in [Failure::Gzip("g".to_string()), Failure::Xml("x".to_string()),
        Failure::NoAlternateFunction, Failure::NoAlternateFunctionText,
        Failure::NotAlternateFunction, Failure::MissingRemap,
        Failure::BadNumber(NumberFault::Empty)] {
        assert_eq!(fault.kind(), FailureKind::Decode);
        assert!(!fault.message().is_empty());
    }
    assert_eq!(Failure::ModeMismatch.kind(), FailureKind::ModeInference);
    assert_eq!(Failure::Pattern("p".to_string()).kind(), FailureKind::Pattern);
    assert_eq!(Failure::Pattern("p".to_string()).message(), "p");
    assert_eq!(Failure::Csv("c".to_string()).kind(), FailureKind::Output);
    assert_eq!(Failure::Csv("c".to_string()).message(), "c");
    assert_eq!(Failure::NoRootElement.kind(), FailureKind::Structure);
    assert_eq!(Failure::NoRootElement.message(), "missing root element");
}

#[test]
fn signal_info_can_be_built_by_hand() {
    let signal = SignalInfo { name: "S".to_string(), map: SignalMap::Remap(vec![1]) };
    let copy = signal.map.clone();
    assert!(matches!(copy, SignalMap::Remap(r) if r == vec![1]));
}

#[test]
fn faults_of_the_decoders_carry_their_words() {
    match XmlDocument::parse("<a>") {
        Err(Failure::Xml(words)) => {
            assert_eq!(words, roxmltree::Document::parse("<a>").unwrap_err().to_string());
            assert!(!words.is_empty());
        },
        other => panic!("{:?}", other),
    }
    match read_gziped(b"no gzip stream") {
        Err(Failure::Gzip(words)) => {
            let mut text = String::new();
            let error = std::io::Read::read_to_string(
                &mut flate2::read::GzDecoder::new(&b"no gzip stream"[..]),
                &mut text,
            )
            .unwrap_err();
            assert_eq!(words, error.to_string());
            assert!(!words.is_empty());
        },
        other => panic!("{:?}", other),
    }
    match read_gziped(&gzip(&[0xff, 0xfe])) {
        Err(Failure::Gzip(words)) => assert!(words.contains("UTF-8"), "{}", words),
        other => panic!("{:?}", other),
    }
    match list_parts(&Vec::new(), "a(b") {
        Err(Failure::Pattern(words)) => {
            assert_eq!(words, regex::Regex::new("a(b").unwrap_err().to_string())
        },
        other => panic!("{:?}", other),
    }
}

#[test]
fn a_document_without_a_root_element_is_a_fault() {
    let empty = XmlDocument { nodes: Vec::new() };
    assert!(matches!(load_gpios(&empty), Err(Failure::NoRootElement)));
    assert!(matches!(PartHeader::read(&empty), Err(Failure::NoRootElement)));
    assert!(matches!(PartInfo::new("p", &empty, &doc(AF_GPIO)), Err(Failure::NoRootElement)));
}
