use dns_codec::ip_locator::LocationData;

fn location(status: &str, fields: [&str; 7]) -> LocationData {
    LocationData {
        status: status.to_string(),
        continent: fields[0].to_string(),
        country: fields[1].to_string(),
        country_code: fields[2].to_string(),
        region_name: fields[3].to_string(),
        city: fields[4].to_string(),
        isp: fields[5].to_string(),
        org: fields[6].to_string(),
    }
}

fn full() -> LocationData {
    location(
        "success",
        ["Europe", "Germany", "DE", "Hesse", "Frankfurt", "Example Net", "Example Org"],
    )
}

/// The same fields, each between angle brackets.
fn bracketed(data: &LocationData) -> LocationData {
    let mark = |s: &String| format!("<{s}>");
    LocationData {
        status: mark(&data.status),
        continent: mark(&data.continent),
        country: mark(&data.country),
        country_code: mark(&data.country_code),
        region_name: mark(&data.region_name),
        city: mark(&data.city),
        isp: mark(&data.isp),
        org: mark(&data.org),
    }
}

#[test]
fn location_report_lists_fields_in_order() {
    let data = full();
    assert_eq!(
        data.report(&data),
        "\tcontinent: Europe\n\tcountry: DE (Germany)\n\tregion/state: Hesse\n\tcity: Frankfurt\
         \n\torganization: Example Org\n\tisp: Example Net"
    );
}

#[test]
fn location_report_writes_fields_as_styled() {
    let data = full();
    assert_eq!(
        data.report(&bracketed(&data)),
        "\tcontinent: <Europe>\n\tcountry: <DE> (<Germany>)\n\tregion/state: <Hesse>\
         \n\tcity: <Frankfurt>\n\torganization: <Example Org>\n\tisp: <Example Net>"
    );
}

#[test]
fn location_report_skips_empty_fields() {
    let data = location("success", ["", "Germany", "", "", "Frankfurt", "", ""]);
    assert_eq!(data.report(&bracketed(&data)), "\tcountry: <> (<Germany>)\n\tcity: <Frankfurt>");
    let data = location("success", ["", "", "DE", "", "", "", ""]);
    assert_eq!(data.report(&data), "\t");
    let data = location("success", ["", "", "", "", "", "Example Net", ""]);
    assert_eq!(data.report(&data), "\tisp: Example Net");
}

#[test]
fn location_without_success_is_an_error() {
    for status in ["fail", "", "Success", "success ", "successful"] {
        let mut data = full();
        data.status = status.to_string();
        assert_eq!(data.report(&data), "error");
        assert_eq!(data.to_string(), "error");
    }
}

#[test]
fn location_to_string_is_bold_in_one_of_two_ways() {
    let data = full();
    colored::control::set_override(true);
    let text = data.to_string();
    colored::control::set_override(false);
    let plain = data.to_string();
    colored::control::unset_override();
    let bold = |s: &str| format!("\u{1b}[1m{s}\u{1b}[0m");
    assert_eq!(
        text,
        format!(
            "\tcontinent: {}\n\tcountry: {} ({})\n\tregion/state: {}\n\tcity: {}\
             \n\torganization: {}\n\tisp: {}",
            bold("Europe"),
            bold("DE"),
            bold("Germany"),
            bold("Hesse"),
            bold("Frankfurt"),
            bold("Example Org"),
            bold("Example Net")
        )
    );
    assert_eq!(plain, data.report(&data));
}
