//! The commands that give the virtual interface its address, its routes and its MTU.

#[allow(unused_imports)]
use vstd::arithmetic::power2::pow2;
use vstd::prelude::*;
use vstd::string::*;

use crate::addr::Ipv4Addr;
#[allow(unused_imports)]
use crate::addr::ipv4_at;
use crate::ipam::{cidr_text, Ipv4Net};
#[allow(unused_imports)]
use crate::ipam::{cidr_chars, parsed_network};
#[allow(unused_imports)]
use crate::text::{
    decimal, decimal_writes_the_number, ipv4_chars, parsed_unsigned, trimmed, writes_number,
};
use crate::text::{decimal_text, parse_unsigned, trim};

verus! {

/// A program to run and its arguments.
#[derive(Debug, Clone)]
pub struct Command {
    pub program: String,
    pub args: Vec<String>,
}

/// What a [`Command`] says.
#[verifier::ext_equal]
pub struct CommandLine {
    pub program: Seq<char>,
    pub args: Seq<Seq<char>>,
}

impl View for Command {
    type V = CommandLine;

    open spec fn view(&self) -> CommandLine {
        CommandLine {
            program: self.program@,
            args: Seq::new(self.args@.len(), |i: int| self.args@[i]@),
        }
    }
}

/// What a list of commands says.
pub open spec fn command_lines(commands: Seq<Command>) -> Seq<CommandLine> {
    Seq::new(commands.len(), |i: int| commands[i]@)
}

/// Why an interface could not be configured.
#[derive(Debug)]
pub enum IfaceError {
    /// The address does not parse, for the given reason.
    BadAddress(String),
    /// No interface index could be had for the interface of this name.
    QueryFailed(String),
    /// The answer to the query for the index is no index.
    BadIndex(String),
}

impl IfaceError {
    /// The message for the user.
    pub fn message(&self) -> (s: String)
        ensures
            s@ == match self {
                IfaceError::BadAddress(e) => e@,
                IfaceError::QueryFailed(name) => "Get-NetIPInterface failed for alias="@ + name@,
                IfaceError::BadIndex(text) => "invalid InterfaceIndex: "@ + text@,
            },
    {
        match self {
            IfaceError::BadAddress(e) => e.clone(),
            IfaceError::QueryFailed(name) => {
                let mut s: String = "Get-NetIPInterface failed for alias=".to_owned();
                s.append(name.as_str());
                s
            },
            IfaceError::BadIndex(text) => {
                let mut s: String = "invalid InterfaceIndex: ".to_owned();
                s.append(text.as_str());
                s
            },
        }
    }
}


/// The network of `net` in CIDR notation.
pub open spec fn network_chars(net: Ipv4Net) -> Seq<char> {
    cidr_chars(ipv4_at(net.first()), net.prefix)
}

/// The commands for Linux.
pub open spec fn linux_lines(name: Seq<char>, mtu: u16, address: Seq<char>, net: Ipv4Net) -> Seq<
    CommandLine,
> {
    seq![
        CommandLine { program: "ip"@, args: seq!["addr"@, "add"@, address, "dev"@, name] },
        CommandLine { program: "ip"@, args: seq!["link"@, "set"@, "dev"@, name, "up"@] },
        CommandLine {
            program: "ip"@,
            args: seq!["link"@, "set"@, "dev"@, name, "mtu"@, decimal(mtu as nat)],
        },
        CommandLine {
            program: "ip"@,
            args: seq!["route"@, "replace"@, network_chars(net), "dev"@, name],
        },
    ]
}

/// The commands for macOS.
pub open spec fn macos_lines(name: Seq<char>, mtu: u16, net: Ipv4Net) -> Seq<CommandLine> {
    seq![
        CommandLine {
            program: "ifconfig"@,
            args: seq![name, ipv4_at(net.addr as int).chars(), ipv4_at(net.netmask()).chars()],
        },
        CommandLine {
            program: "ifconfig"@,
            args: seq![name, "mtu"@, decimal(mtu as nat)],
        },
        CommandLine { program: "ifconfig"@, args: seq![name, "up"@] },
        CommandLine {
            program: "route"@,
            args: seq!["-n"@, "add"@, "-net"@, network_chars(net), "-interface"@, name],
        },
    ]
}

/// A PowerShell script as a command.
pub open spec fn powershell_line(script: Seq<char>) -> CommandLine {
    CommandLine { program: "powershell"@, args: seq!["-NoProfile"@, "-Command"@, script] }
}

/// The script that asks for the index of the interface of the given name.
pub open spec fn index_script(name: Seq<char>) -> Seq<char> {
    "(Get-NetIPInterface -InterfaceAlias '"@ + name + "' -AddressFamily IPv4).InterfaceIndex"@
}

/// The script that sends the packets for `destination` to the interface.
pub open spec fn route_script(index: u32, destination: Seq<char>) -> Seq<char> {
    "Try { New-NetRoute -InterfaceIndex "@ + decimal(index as nat) + " -DestinationPrefix '"@
        + destination
        + "' -NextHop 0.0.0.0 -RouteMetric 5 -ErrorAction SilentlyContinue } Catch { $_ }"@
}

/// The script that gives the interface its address.
pub open spec fn address_script(index: u32, net: Ipv4Net) -> Seq<char> {
    "Try { New-NetIPAddress -InterfaceIndex "@ + decimal(index as nat) + " -IPAddress "@ + ipv4_at(
        net.addr as int,
    ).chars() + " -PrefixLength "@ + decimal(net.prefix as nat)
        + " -AddressFamily IPv4 -ErrorAction Stop } Catch { $_ }"@
}

/// The script that sets the MTU of one address family.
pub open spec fn mtu_script(index: u32, family: Seq<char>, mtu: u16) -> Seq<char> {
    "Try { Set-NetIPInterface -InterfaceIndex "@ + decimal(index as nat) + " -AddressFamily "@ + family
        + " -NlMtuBytes "@ + decimal(mtu as nat) + " -ErrorAction Stop } Catch { $_ }"@
}

/// The script that gives the interface a low, fixed metric.
pub open spec fn metric_script(index: u32) -> Seq<char> {
    "Try { Set-NetIPInterface -InterfaceIndex "@ + decimal(index as nat)
        + " -AutomaticMetric Disabled -InterfaceMetric 5 -ErrorAction Stop } Catch { $_ }"@
}

/// The commands for Windows, once the index of the interface is known.
pub open spec fn windows_lines(name: Seq<char>, mtu: u16, net: Ipv4Net, index: u32) -> Seq<
    CommandLine,
> {
    seq![
        powershell_line(address_script(index, net)),
        powershell_line(route_script(index, network_chars(net))),
        powershell_line(mtu_script(index, "IPv4"@, mtu)),
        powershell_line(mtu_script(index, "IPv6"@, mtu)),
        CommandLine {
            program: "netsh"@,
            args: seq![
                "interface"@,
                "ipv4"@,
                "set"@,
                "subinterface"@,
                name,
                "mtu="@ + decimal(mtu as nat),
                "store=active"@,
            ],
        },
        powershell_line(metric_script(index)),
    ]
}

/// A command with the given arguments.
fn command(program: &str, args: Vec<&str>) -> (c: Command)
    ensures
        c@.program == program@,
        c@.args == Seq::new(args@.len(), |i: int| args@[i]@),
{
    let mut owned: Vec<String> = Vec::new();
    let mut i: usize = 0;
    while i < args.len()
        invariant
            i <= args@.len(),
            owned@.len() == i,
            forall|j: int| 0 <= j < i ==> #[trigger] owned@[j]@ == args@[j]@,
        decreases args@.len() - i,
    {
        owned.push(args[i].to_owned());
        i += 1;
    }
    let c: Command = Command { program: program.to_owned(), args: owned };
    assert(c@.args =~= Seq::new(args@.len(), |i: int| args@[i]@));
    c
}

/// The network of `net` in CIDR notation.
fn network_text(net: Ipv4Net) -> (s: String)
    requires
        net.wf(),
    ensures
        s@ == network_chars(net),
{
    cidr_text(Ipv4Addr::from_u32(net.network()), net.prefix)
}

/// The commands that configure the interface on Linux: its address, that it is up, its MTU, and the
/// route to the network.
pub fn linux_commands(name: &str, mtu: u16, address: &str, net: Ipv4Net) -> (commands: Vec<Command>)
    requires
        net.wf(),
    ensures
        command_lines(commands@) == linux_lines(name@, mtu, address@, net),
{
    let network: String = network_text(net);
    let limit: String = decimal_text(mtu as u64);
    let mut commands: Vec<Command> = Vec::new();
    commands.push(command("ip", vec!["addr", "add", address, "dev", name]));
    commands.push(command("ip", vec!["link", "set", "dev", name, "up"]));
    commands.push(command("ip", vec!["link", "set", "dev", name, "mtu", limit.as_str()]));
    commands.push(command("ip", vec!["route", "replace", network.as_str(), "dev", name]));
    assert(command_lines(commands@) =~~= linux_lines(name@, mtu, address@, net));
    commands
}

/// The commands that configure the interface on macOS: its address, its MTU, that it is up, and the
/// route to the network.
pub fn macos_commands(name: &str, mtu: u16, net: Ipv4Net) -> (commands: Vec<Command>)
    requires
        net.wf(),
    ensures
        command_lines(commands@) == macos_lines(name@, mtu, net),
{
    let ip: String = Ipv4Addr::from_u32(net.addr).text();
    let mask: String = Ipv4Addr::from_u32(net.mask()).text();
    let network: String = network_text(net);
    let limit: String = decimal_text(mtu as u64);
    let mut commands: Vec<Command> = Vec::new();
    commands.push(command("ifconfig", vec![name, ip.as_str(), mask.as_str()]));
    commands.push(command("ifconfig", vec![name, "mtu", limit.as_str()]));
    commands.push(command("ifconfig", vec![name, "up"]));
    commands.push(
        command("route", vec!["-n", "add", "-net", network.as_str(), "-interface", name]),
    );
    assert(command_lines(commands@) =~~= macos_lines(name@, mtu, net));
    commands
}

/// A PowerShell script as a command.
fn powershell(script: &str) -> (c: Command)
    ensures
        c@ == powershell_line(script@),
{
    let c: Command = command("powershell", vec!["-NoProfile", "-Command", script]);
    assert(c@ =~~= powershell_line(script@));
    c
}

/// The command that asks for the index of the interface of the given name.
pub fn index_query(name: &str) -> (c: Command)
    ensures
        c@ == powershell_line(index_script(name@)),
{
    let mut script: String = "(Get-NetIPInterface -InterfaceAlias '".to_owned();
    script.append(name);
    script.append("' -AddressFamily IPv4).InterfaceIndex");
    powershell(script.as_str())
}

/// The interface index in the output of the query for it: a number, with white space around it.
pub fn parse_index(name: &str, succeeded: bool, output: &str) -> (index: Result<u32, IfaceError>)
    ensures
        match index {
            Ok(i) => succeeded && parsed_unsigned(trimmed(output@), u32::MAX as int) == Some(
                i as int,
            ),
            Err(IfaceError::QueryFailed(n)) => !succeeded && n@ == name@,
            Err(IfaceError::BadIndex(text)) => succeeded && parsed_unsigned(
                trimmed(output@),
                u32::MAX as int,
            ) is None && text@ == trimmed(output@),
            Err(IfaceError::BadAddress(_)) => false,
        },
{
    if !succeeded {
        return Err(IfaceError::QueryFailed(name.to_owned()));
    }
    let text: &str = trim(output);
    match parse_unsigned(text, u32::MAX as u64) {
        Some(i) => Ok(i as u32),
        None => Err(IfaceError::BadIndex(text.to_owned())),
    }
}

/// The command that sends the packets for `destination` to the interface.
fn route_command(index: u32, destination: &str) -> (c: Command)
    ensures
        c@ == powershell_line(route_script(index, destination@)),
{
    let number: String = decimal_text(index as u64);
    let mut script: String = "Try { New-NetRoute -InterfaceIndex ".to_owned();
    script.append(number.as_str());
    script.append(" -DestinationPrefix '");
    script.append(destination);
    script.append(
        "' -NextHop 0.0.0.0 -RouteMetric 5 -ErrorAction SilentlyContinue } Catch { $_ }",
    );
    powershell(script.as_str())
}

/// The command that gives the interface its address.
fn address_command(index: u32, net: Ipv4Net) -> (c: Command)
    ensures
        c@ == powershell_line(address_script(index, net)),
{
    let number: String = decimal_text(index as u64);
    let ip: String = Ipv4Addr::from_u32(net.addr).text();
    let prefix: String = decimal_text(net.prefix as u64);
    let mut script: String = "Try { New-NetIPAddress -InterfaceIndex ".to_owned();
    script.append(number.as_str());
    script.append(" -IPAddress ");
    script.append(ip.as_str());
    script.append(" -PrefixLength ");
    script.append(prefix.as_str());
    script.append(" -AddressFamily IPv4 -ErrorAction Stop } Catch { $_ }");
    powershell(script.as_str())
}

/// The command that sets the MTU of one address family.
fn mtu_command(index: u32, family: &str, mtu: u16) -> (c: Command)
    ensures
        c@ == powershell_line(mtu_script(index, family@, mtu)),
{
    let number: String = decimal_text(index as u64);
    let limit: String = decimal_text(mtu as u64);
    let mut script: String = "Try { Set-NetIPInterface -InterfaceIndex ".to_owned();
    script.append(number.as_str());
    script.append(" -AddressFamily ");
    script.append(family);
    script.append(" -NlMtuBytes ");
    script.append(limit.as_str());
    script.append(" -ErrorAction Stop } Catch { $_ }");
    powershell(script.as_str())
}

/// The command that gives the interface a low, fixed metric.
fn metric_command(index: u32) -> (c: Command)
    ensures
        c@ == powershell_line(metric_script(index)),
{
    let number: String = decimal_text(index as u64);
    let mut script: String = "Try { Set-NetIPInterface -InterfaceIndex ".to_owned();
    script.append(number.as_str());
    script.append(
        " -AutomaticMetric Disabled -InterfaceMetric 5 -ErrorAction Stop } Catch { $_ }",
    );
    powershell(script.as_str())
}

/// The commands that configure the interface on Windows: its address, the route to the network, the
/// MTU of both address families, and its metric.
pub fn windows_commands(name: &str, mtu: u16, net: Ipv4Net, index: u32) -> (commands: Vec<Command>)
    requires
        net.wf(),
    ensures
        command_lines(commands@) == windows_lines(name@, mtu, net, index),
{
    let network: String = network_text(net);
    let limit: String = decimal_text(mtu as u64);
    let mut assignment: String = "mtu=".to_owned();
    assignment.append(limit.as_str());
    let mut commands: Vec<Command> = Vec::new();
    commands.push(address_command(index, net));
    commands.push(route_command(index, network.as_str()));
    commands.push(mtu_command(index, "IPv4", mtu));
    commands.push(mtu_command(index, "IPv6", mtu));
    let netsh: Command = command(
        "netsh",
        vec![
            "interface",
            "ipv4",
            "set",
            "subinterface",
            name,
            assignment.as_str(),
            "store=active",
        ],
    );
    commands.push(netsh);
    commands.push(metric_command(index));
    assert(command_lines(commands@) =~~= windows_lines(name@, mtu, net, index));
    commands
}

/// The command that routes the packets for one host to the interface, on Windows.
pub fn host_route(index: u32, host: &str) -> (c: Command)
    ensures
        c@ == powershell_line(route_script(index, host@ + "/32"@)),
{
    let mut destination: String = host.to_owned();
    destination.append("/32");
    route_command(index, destination.as_str())
}

/// The system that the interface is configured on.
#[derive(Debug, Clone, Copy, PartialEq, Eq, Structural)]
pub enum System {
    Linux,
    Macos,
    /// With the index of the interface.
    Windows(u32),
}

/// The commands that configure the interface with an address of the network.
pub open spec fn configuration(
    system: System,
    name: Seq<char>,
    mtu: u16,
    address: Seq<char>,
    net: Ipv4Net,
) -> Seq<CommandLine> {
    match system {
        System::Linux => linux_lines(name, mtu, address, net),
        System::Macos => macos_lines(name, mtu, net),
        System::Windows(index) => windows_lines(name, mtu, net, index),
    }
}

/// The commands that give the interface `name` the address and the MTU, and that route the network of
/// the address to it.
pub fn configure_iface_addr(system: System, name: &str, mtu: u16, address: &str) -> (commands:
    Result<Vec<Command>, IfaceError>)
    ensures
        match (commands, parsed_network(address@)) {
            (Ok(list), Ok((addr, prefix))) => command_lines(list@) == configuration(
                system,
                name@,
                mtu,
                address@,
                Ipv4Net { addr, prefix },
            ),
            (Err(IfaceError::BadAddress(text)), Err(e)) => text@ == e,
            _ => false,
        },
{
    match Ipv4Net::parse(address) {
        Ok(net) => match system {
            System::Linux => Ok(linux_commands(name, mtu, address, net)),
            System::Macos => Ok(macos_commands(name, mtu, net)),
            System::Windows(index) => Ok(windows_commands(name, mtu, net, index)),
        },
        Err(e) => Err(IfaceError::BadAddress(e)),
    }
}

/// Whether a text is, in CIDR notation, a network of the given prefix length whose lowest address it
/// names and in which `addr` is.
pub open spec fn names_network_of(text: Seq<char>, addr: u32, prefix: u8) -> bool {
    exists|low: Ipv4Addr|
        {
            &&& text == #[trigger] cidr_chars(low, prefix)
            &&& low.number() % (pow2((32 - prefix) as nat) as int) == 0
            &&& low.number() <= addr < low.number() + pow2((32 - prefix) as nat)
        }
}

/// The network that the interface is given a route to is the one that its address is in, with the
/// prefix length of the address, named by its lowest address.
pub proof fn route_leads_to_the_network_of_the_address(net: Ipv4Net)
    requires
        net.prefix <= 32,
    ensures
        names_network_of(network_chars(net), net.addr, net.prefix),
{
    crate::ipam::network_is_its_prefix(net);
    let low: Ipv4Addr = ipv4_at(net.first());
    crate::addr::addresses_are_numbers(net.first(), low);
    assert(network_chars(net) == cidr_chars(low, net.prefix));
}

/// On Linux the interface gets the address as it was given, is set up, gets the MTU, and gets the route
/// to the network of its address; every command is about this interface.
#[verifier::spinoff_prover]
#[verifier::rlimit(60)]
pub proof fn linux_interface_is_configured(
    name: Seq<char>,
    mtu: u16,
    address: Seq<char>,
    net: Ipv4Net,
)
    requires
        net.prefix <= 32,
    ensures
        ({
            let lines: Seq<CommandLine> = configuration(System::Linux, name, mtu, address, net);
            &&& lines.len() == 4
            &&& forall|i: int| 0 <= i < 4 ==> (#[trigger] lines[i]).program == "ip"@
            &&& lines[0].args == seq!["addr"@, "add"@, address, "dev"@, name]
            &&& lines[1].args == seq!["link"@, "set"@, "dev"@, name, "up"@]
            &&& lines[2].args.len() == 6 && lines[2].args.take(5) == seq![
                "link"@,
                "set"@,
                "dev"@,
                name,
                "mtu"@,
            ]
            &&& writes_number(lines[2].args[5], mtu as int)
            &&& lines[3].args.len() == 5 && lines[3].args.take(2) == seq!["route"@, "replace"@]
            &&& names_network_of(lines[3].args[2], net.addr, net.prefix)
            &&& lines[3].args.skip(3) == seq!["dev"@, name]
        }),
{
    route_leads_to_the_network_of_the_address(net);
    decimal_writes_the_number(mtu as nat);
    let lines: Seq<CommandLine> = configuration(System::Linux, name, mtu, address, net);
    assert(lines[2].args.take(5) =~= seq!["link"@, "set"@, "dev"@, name, "mtu"@]);
    assert(lines[3].args.take(2) =~= seq!["route"@, "replace"@]);
    assert(lines[3].args.skip(3) =~= seq!["dev"@, name]);
}

/// On macOS the interface gets its address with the mask of the network, the MTU, is set up, and gets
/// the route to the network of its address.
#[verifier::spinoff_prover]
#[verifier::rlimit(60)]
pub proof fn macos_interface_is_configured(
    name: Seq<char>,
    mtu: u16,
    address: Seq<char>,
    net: Ipv4Net,
    ip: Ipv4Addr,
    mask: Ipv4Addr,
)
    requires
        net.prefix <= 32,
        ip.number() == net.addr,
        mask.number() + pow2((32 - net.prefix) as nat) == 0x1_0000_0000,
    ensures
        ({
            let lines: Seq<CommandLine> = configuration(System::Macos, name, mtu, address, net);
            &&& lines.len() == 4
            &&& lines[0].program == "ifconfig"@ && lines[1].program == "ifconfig"@
                && lines[2].program == "ifconfig"@ && lines[3].program == "route"@
            &&& lines[0].args == seq![
                name,
                ipv4_chars(ip.a, ip.b, ip.c, ip.d),
                ipv4_chars(mask.a, mask.b, mask.c, mask.d),
            ]
            &&& lines[1].args.len() == 3 && lines[1].args.take(2) == seq![name, "mtu"@]
            &&& writes_number(lines[1].args[2], mtu as int)
            &&& lines[2].args == seq![name, "up"@]
            &&& lines[3].args.len() == 6 && lines[3].args.take(3) == seq!["-n"@, "add"@, "-net"@]
            &&& names_network_of(lines[3].args[3], net.addr, net.prefix)
            &&& lines[3].args.skip(4) == seq!["-interface"@, name]
        }),
{
    crate::ipam::network_is_its_prefix(net);
    route_leads_to_the_network_of_the_address(net);
    decimal_writes_the_number(mtu as nat);
    crate::addr::addresses_are_numbers(net.addr as int, ip);
    crate::addr::addresses_are_numbers(net.netmask(), mask);
    assert(ip == ipv4_at(net.addr as int));
    assert(mask == ipv4_at(net.netmask()));
    let lines: Seq<CommandLine> = configuration(System::Macos, name, mtu, address, net);
    assert(lines =~= macos_lines(name, mtu, net));
    assert(lines[1].args.take(2) =~= seq![name, "mtu"@]);
    assert(lines[3].args.take(3) =~= seq!["-n"@, "add"@, "-net"@]);
    assert(lines[3].args.skip(4) =~= seq!["-interface"@, name]);
}

/// Whether a command line runs a PowerShell script.
pub open spec fn runs_script(line: CommandLine, script: Seq<char>) -> bool {
    line.program == "powershell"@ && line.args == seq!["-NoProfile"@, "-Command"@, script]
}

/// On Windows the interface of the index gets its address, the route to the network of its address, the
/// MTU of both address families by PowerShell and by netsh, and its metric.
#[verifier::spinoff_prover]
#[verifier::rlimit(60)]
pub proof fn windows_interface_is_configured(
    name: Seq<char>,
    mtu: u16,
    address: Seq<char>,
    net: Ipv4Net,
    index: u32,
    ip: Ipv4Addr,
)
    requires
        net.prefix <= 32,
        ip.number() == net.addr,
    ensures
        ({
            let lines: Seq<CommandLine> = configuration(
                System::Windows(index),
                name,
                mtu,
                address,
                net,
            );
            exists|number: Seq<char>, prefix: Seq<char>, limit: Seq<char>, network: Seq<char>|
                {
                    &&& #[trigger] writes_number(number, index as int)
                    &&& #[trigger] writes_number(prefix, net.prefix as int)
                    &&& #[trigger] writes_number(limit, mtu as int)
                    &&& #[trigger] names_network_of(network, net.addr, net.prefix)
                    &&& lines.len() == 6
                    &&& runs_script(
                        lines[0],
                        "Try { New-NetIPAddress -InterfaceIndex "@ + number + " -IPAddress "@
                            + ipv4_chars(ip.a, ip.b, ip.c, ip.d) + " -PrefixLength "@ + prefix
                            + " -AddressFamily IPv4 -ErrorAction Stop } Catch { $_ }"@,
                    )
                    &&& runs_script(
                        lines[1],
                        "Try { New-NetRoute -InterfaceIndex "@ + number + " -DestinationPrefix '"@
                            + network
                            + "' -NextHop 0.0.0.0 -RouteMetric 5 -ErrorAction SilentlyContinue } Catch { $_ }"@,
                    )
                    &&& runs_script(
                        lines[2],
                        "Try { Set-NetIPInterface -InterfaceIndex "@ + number
                            + " -AddressFamily "@ + "IPv4"@ + " -NlMtuBytes "@ + limit
                            + " -ErrorAction Stop } Catch { $_ }"@,
                    )
                    &&& runs_script(
                        lines[3],
                        "Try { Set-NetIPInterface -InterfaceIndex "@ + number
                            + " -AddressFamily "@ + "IPv6"@ + " -NlMtuBytes "@ + limit
                            + " -ErrorAction Stop } Catch { $_ }"@,
                    )
                    &&& lines[4].program == "netsh"@
                    &&& lines[4].args == seq![
                        "interface"@,
                        "ipv4"@,
                        "set"@,
                        "subinterface"@,
                        name,
                        "mtu="@ + limit,
                        "store=active"@,
                    ]
                    &&& runs_script(
                        lines[5],
                        "Try { Set-NetIPInterface -InterfaceIndex "@ + number
                            + " -AutomaticMetric Disabled -InterfaceMetric 5 -ErrorAction Stop } Catch { $_ }"@,
                    )
                }
        }),
{
    route_leads_to_the_network_of_the_address(net);
    decimal_writes_the_number(mtu as nat);
    decimal_writes_the_number(index as nat);
    decimal_writes_the_number(net.prefix as nat);
    crate::addr::addresses_are_numbers(net.addr as int, ip);
    let number: Seq<char> = decimal(index as nat);
    let prefix: Seq<char> = decimal(net.prefix as nat);
    let limit: Seq<char> = decimal(mtu as nat);
    let network: Seq<char> = network_chars(net);
    assert(writes_number(number, index as int));
    assert(writes_number(prefix, net.prefix as int));
    assert(writes_number(limit, mtu as int));
    assert(names_network_of(network, net.addr, net.prefix));
}

/// A host route leads to the one host, through the interface of the index; the index is asked for by the
/// name of the interface.
pub proof fn host_route_leads_to_the_host(index: u32, host: Seq<char>, name: Seq<char>)
    ensures
        exists|number: Seq<char>| #[trigger]
            writes_number(number, index as int) && runs_script(
                powershell_line(route_script(index, host + "/32"@)),
                "Try { New-NetRoute -InterfaceIndex "@ + number + " -DestinationPrefix '"@ + (host
                    + "/32"@)
                    + "' -NextHop 0.0.0.0 -RouteMetric 5 -ErrorAction SilentlyContinue } Catch { $_ }"@,
            ),
        runs_script(
            powershell_line(index_script(name)),
            "(Get-NetIPInterface -InterfaceAlias '"@ + name
                + "' -AddressFamily IPv4).InterfaceIndex"@,
        ),
{
    decimal_writes_the_number(index as nat);
    assert(writes_number(decimal(index as nat), index as int));
}

/// What a command says is what it holds.
pub proof fn commands_say_what_they_hold(c: Command, list: Seq<Command>, i: int)
    ensures
        c@.program == c.program@,
        c@.args.len() == c.args@.len(),
        0 <= i < c.args@.len() ==> c@.args[i] == c.args@[i]@,
        command_lines(list).len() == list.len(),
        0 <= i < list.len() ==> command_lines(list)[i] == list[i]@,
{
}

} // verus!
