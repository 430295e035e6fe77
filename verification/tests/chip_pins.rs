use zapfast::chip_pins::chip_pins;

fn row(chip: &str, chat: &str, at: i64) -> (String, String, i64) {
    (chip.to_owned(), chat.to_owned(), at)
}

#[test]
fn chip_pins_come_newest_first() {
    let rows = vec![
        row("favorites", "a@s.whatsapp.net", 10),
        row("groups", "b@g.us", 30),
        row("favorites", "c@s.whatsapp.net", 20),
        row("work", "d@s.whatsapp.net", 20),
    ];
    assert_eq!(
        chip_pins(rows),
        vec![
            row("groups", "b@g.us", 30),
            row("favorites", "c@s.whatsapp.net", 20),
            row("work", "d@s.whatsapp.net", 20),
            row("favorites", "a@s.whatsapp.net", 10),
        ]
    );
    assert!(chip_pins(Vec::new()).is_empty());
}
