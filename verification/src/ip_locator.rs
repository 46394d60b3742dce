//! The report on where an address is located, from the fields that a
//! location service returned for it.

use vstd::prelude::*;
use vstd::string::*;
use colored::Colorize;

verus! {

/// What a location service says of an address. A field that the service
/// does not know is empty.
#[derive(PartialEq, Eq, Debug, Clone, Hash)]
pub struct LocationData {
    /// `success` if the service knows the address.
    pub status: String,
    pub continent: String,
    pub country: String,
    pub country_code: String,
    pub region_name: String,
    pub city: String,
    pub isp: String,
    pub org: String,
}

/// The fields of a location as mathematical values.
pub struct LocationView {
    pub status: Seq<char>,
    pub continent: Seq<char>,
    pub country: Seq<char>,
    pub country_code: Seq<char>,
    pub region_name: Seq<char>,
    pub city: Seq<char>,
    pub isp: Seq<char>,
    pub org: Seq<char>,
}

impl View for LocationData {
    type V = LocationView;

    open spec fn view(&self) -> LocationView {
        LocationView {
            status: self.status@,
            continent: self.continent@,
            country: self.country@,
            country_code: self.country_code@,
            region_name: self.region_name@,
            city: self.city@,
            isp: self.isp@,
            org: self.org@,
        }
    }
}

/// The line `line`, if `shown`; no line otherwise.
pub open spec fn line_if(shown: bool, line: Seq<char>) -> Seq<Seq<char>> {
    if shown {
        seq![line]
    } else {
        Seq::empty()
    }
}

/// The lines of a report: one for each field of `data` that is not empty, in
/// a fixed order, each with its field as `styled` has it.
pub open spec fn report_lines(data: LocationView, styled: LocationView) -> Seq<Seq<char>> {
    line_if(data.continent.len() > 0, "continent: "@ + styled.continent) + line_if(
        data.country.len() > 0,
        "country: "@ + styled.country_code + " ("@ + styled.country + ")"@,
    ) + line_if(data.region_name.len() > 0, "region/state: "@ + styled.region_name) + line_if(
        data.city.len() > 0,
        "city: "@ + styled.city,
    ) + line_if(data.org.len() > 0, "organization: "@ + styled.org) + line_if(
        data.isp.len() > 0,
        "isp: "@ + styled.isp,
    )
}

/// The lines one after the other, each but the first on a new line after a
/// tab.
pub open spec fn join_lines(lines: Seq<Seq<char>>) -> Seq<char>
    decreases lines.len(),
{
    if lines.len() == 0 {
        Seq::empty()
    } else if lines.len() == 1 {
        lines[0]
    } else {
        join_lines(lines.drop_last()) + "\n\t"@ + lines.last()
    }
}

/// The report on a location: `error` unless the status is `success`, else a
/// tab and the lines of the report.
pub open spec fn report_text(data: LocationView, styled: LocationView) -> Seq<char> {
    if data.status != "success"@ {
        "error"@
    } else {
        "\t"@ + join_lines(report_lines(data, styled))
    }
}

/// The escape sequence that switches bold on.
pub open spec fn bold_on() -> Seq<char> {
    seq!['\u{1b}', '[', '1', 'm']
}

/// The escape sequence that switches every style off.
pub open spec fn style_reset() -> Seq<char> {
    seq!['\u{1b}', '[', '0', 'm']
}

/// Whether `text` holds the escape sequence that switches every style off.
pub open spec fn holds_reset(text: Seq<char>) -> bool {
    exists|i: int| 0 <= i && i + 4 <= text.len() && #[trigger] text.subrange(i, i + 4) == style_reset()
}

/// Whether `styled` is `text` in bold: the text as it is, where colours are
/// off, or the text between the sequences that switch bold on and every
/// style off. Of a text that holds the latter sequence itself nothing is
/// said.
pub open spec fn in_bold(text: Seq<char>, styled: Seq<char>) -> bool {
    holds_reset(text) || styled == text || styled == bold_on() + text + style_reset()
}

/// Whether each field of `styled` but the status is that field of `data` in
/// bold.
pub open spec fn fields_in_bold(data: LocationView, styled: LocationView) -> bool {
    &&& in_bold(data.continent, styled.continent)
    &&& in_bold(data.country, styled.country)
    &&& in_bold(data.country_code, styled.country_code)
    &&& in_bold(data.region_name, styled.region_name)
    &&& in_bold(data.city, styled.city)
    &&& in_bold(data.isp, styled.isp)
    &&& in_bold(data.org, styled.org)
}

/// The text in bold as `colored` writes it: `Colorize::bold` on a `&str`,
/// then `Display` of the `ColoredString`.
///
/// Whether colours are on depends on the terminal and the environment, and
/// may change between two calls. Where they are off the text is written as
/// it is. Where they are on it is written between `ESC [ 1 m` and
/// `ESC [ 0 m`; only into a text that holds `ESC [ 0 m` itself does
/// `colored` insert more, and of such a text nothing is claimed.
#[verifier::external_body]
fn bold(text: &str) -> (styled: String)
    ensures
        in_bold(text@, styled@),
{
    text.bold().to_string()
}

/// Adds `line` to `lines` if `shown`.
fn push_line_if(lines: &mut Vec<String>, shown: bool, line: String)
    ensures
        lines_view(final(lines)@) == lines_view(old(lines)@) + line_if(shown, line@),
{
    let ghost before = lines_view(lines@);
    if shown {
        lines.push(line);
        assert(lines_view(lines@) == before + seq![line@]);
    } else {
        assert(before + Seq::<Seq<char>>::empty() == before);
    }
}

/// The lines of a vector of lines, each as its characters.
pub open spec fn lines_view(lines: Seq<String>) -> Seq<Seq<char>> {
    lines.map_values(|l: String| l@)
}

/// `label` followed by `value`.
fn labelled(label: &str, value: &String) -> (line: String)
    ensures
        line@ == label@ + value@,
{
    let mut line = String::from_str(label);
    line.append(value.as_str());
    line
}

impl LocationData {
    /// The report on the location, with each field written as `styled` has
    /// it.
    pub fn report(&self, styled: &LocationData) -> (text: String)
        ensures
            text@ == report_text(self@, styled@),
    {
        let success = String::from_str("success");
        if !(self.status == success) {
            return String::from_str("error");
        }
        let mut lines: Vec<String> = Vec::new();
        assert(lines_view(lines@) == Seq::<Seq<char>>::empty());
        push_line_if(
            &mut lines,
            !self.continent.as_str().is_empty(),
            labelled("continent: ", &styled.continent),
        );
        let mut country = labelled("country: ", &styled.country_code);
        country.append(" (");
        country.append(styled.country.as_str());
        country.append(")");
        push_line_if(&mut lines, !self.country.as_str().is_empty(), country);
        push_line_if(
            &mut lines,
            !self.region_name.as_str().is_empty(),
            labelled("region/state: ", &styled.region_name),
        );
        push_line_if(
            &mut lines,
            !self.city.as_str().is_empty(),
            labelled("city: ", &styled.city),
        );
        push_line_if(
            &mut lines,
            !self.org.as_str().is_empty(),
            labelled("organization: ", &styled.org),
        );
        push_line_if(&mut lines, !self.isp.as_str().is_empty(), labelled("isp: ", &styled.isp));
        assert(lines_view(lines@) == report_lines(self@, styled@));
        let mut text = String::from_str("\t");
        let ghost all = lines_view(lines@);
        let mut i: usize = 0;
        assert(join_lines(all.take(0)) == Seq::<char>::empty());
        assert("\t"@ + Seq::<char>::empty() == "\t"@);
        while i < lines.len()
            invariant
                i <= lines.len(),
                all == lines_view(lines@),
                text@ == "\t"@ + join_lines(all.take(i as int)),
            decreases lines.len() - i,
        {
            let ghost next = all.take(i + 1);
            proof {
                assert(next.drop_last() == all.take(i as int));
                assert(next.last() == lines@[i as int]@);
                if i == 0 {
                    assert("\t"@ + next[0] == "\t"@ + Seq::<char>::empty() + next[0]);
                } else {
                    assert("\t"@ + (join_lines(all.take(i as int)) + "\n\t"@ + next.last()) == "\t"@
                        + join_lines(all.take(i as int)) + "\n\t"@ + next.last());
                }
            }
            if i > 0 {
                text.append("\n\t");
            }
            text.append(lines[i].as_str());
            i = i + 1;
        }
        assert(all.take(i as int) == all);
        text
    }

    /// The report on the location, with each field in bold.
    ///
    /// How bold text is written depends on the terminal, so the report is
    /// that of `report` for fields of which each is written in one of the
    /// two ways of `in_bold`.
    pub fn to_string(&self) -> (text: String)
        ensures
            exists|styled: LocationView|
                fields_in_bold(self@, styled) && text@ == report_text(self@, styled),
            self@.status != "success"@ ==> text@ == "error"@,
    {
        let styled = LocationData {
            status: String::new(),
            continent: bold(self.continent.as_str()),
            country: bold(self.country.as_str()),
            country_code: bold(self.country_code.as_str()),
            region_name: bold(self.region_name.as_str()),
            city: bold(self.city.as_str()),
            isp: bold(self.isp.as_str()),
            org: bold(self.org.as_str()),
        };
        let text = self.report(&styled);
        assert(fields_in_bold(self@, styled@) && text@ == report_text(self@, styled@));
        text
    }
}

} // verus!
