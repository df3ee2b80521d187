//! Building and orchestrating the external configuration commands.
//!
//! A configuration change becomes an ordered batch of commands for the
//! host's command-line network tool: one `set address` establishing the
//! primary address (or dynamic addressing), one `add address` per further
//! static address, one `add address gateway=` per gateway, and one
//! `add dns` per DNS server — in that order, because gateway and DNS
//! entries are only meaningful once the primary address exists.
//!
//! The tool's output arrives in a legacy regional encoding; it is
//! transcoded before being surfaced, and an undecodable output is a
//! reportable per-step failure. A command that cannot be spawned halts the
//! remaining sequence; one that runs and fails does not.

use crate::adapter::Address;
use crate::ip::{format_ip_address, spec_ip_text, IpAddress};
use vstd::prelude::*;
use vstd::string::StringExecFns;

verus! {

/// The category of one configuration command, as reported per step.
#[derive(Clone, Copy, Debug, PartialEq, Eq, Structural)]
pub enum CommandKind {
    /// An address-setting step.
    Ip,
    /// A gateway step.
    Gateway,
    /// A DNS step.
    Dns,
}

/// The report tag of a command category.
pub open spec fn spec_kind_tag(k: CommandKind) -> Seq<char> {
    match k {
        CommandKind::Ip => "ip"@,
        CommandKind::Gateway => "gateway"@,
        CommandKind::Dns => "dns"@,
    }
}

impl CommandKind {
    /// The report tag of this category.
    pub fn tag(&self) -> (r: &'static str)
        ensures
            r@ == spec_kind_tag(*self),
    {
        match self {
            CommandKind::Ip => "ip",
            CommandKind::Gateway => "gateway",
            CommandKind::Dns => "dns",
        }
    }
}

/// The abstract value of one command.
#[verifier::ext_equal]
pub struct CommandView {
    /// The command's category.
    pub kind: CommandKind,
    /// The argument text handed to the configuration tool.
    pub text: Seq<char>,
}

/// One external configuration command.
#[derive(Debug)]
pub struct Command {
    /// The command's category.
    pub kind: CommandKind,
    /// The argument text handed to the configuration tool.
    pub text: String,
}

impl View for Command {
    type V = CommandView;

    open spec fn view(&self) -> CommandView {
        CommandView { kind: self.kind, text: self.text@ }
    }
}

/// The abstract values of a command list.
pub open spec fn command_views(cs: Seq<Command>) -> Seq<CommandView> {
    cs.map_values(|c: Command| c@)
}

/// The quoted name token: the adapter name always sits in quotes, even
/// without whitespace, and passes through unaltered.
pub open spec fn spec_name_field(name: Seq<char>) -> Seq<char> {
    "name=\""@ + name + "\""@
}

/// Text of the dynamic-addressing command.
pub open spec fn spec_dynamic_address_cmd(name: Seq<char>) -> Seq<char> {
    "interface ip set address "@ + spec_name_field(name) + " source=dhcp"@
}

/// Text of the dynamic-DNS command.
pub open spec fn spec_dynamic_dns_cmd(name: Seq<char>) -> Seq<char> {
    "interface ip set dns "@ + spec_name_field(name) + " source=dhcp"@
}

/// Text of the command establishing the primary static address.
pub open spec fn spec_static_primary_cmd(name: Seq<char>, a: Address) -> Seq<char> {
    "interface ip set address "@ + spec_name_field(name) + " static "@ + spec_ip_text(a.ip)
        + " "@ + spec_ip_text(a.netmask)
}

/// Text of the command adding one further static address.
pub open spec fn spec_add_address_cmd(name: Seq<char>, a: Address) -> Seq<char> {
    "interface ip add address "@ + spec_name_field(name) + " "@ + spec_ip_text(a.ip) + " "@
        + spec_ip_text(a.netmask)
}

/// Text of the command adding one gateway, with the metric forced to zero.
pub open spec fn spec_gateway_cmd(name: Seq<char>, g: IpAddress) -> Seq<char> {
    "interface ip add address "@ + spec_name_field(name) + " gateway="@ + spec_ip_text(g)
        + " gwmetric=0"@
}

/// Text of the command adding one DNS server.
pub open spec fn spec_dns_cmd(name: Seq<char>, d: IpAddress) -> Seq<char> {
    "interface ip add dns "@ + spec_name_field(name) + " "@ + spec_ip_text(d)
}

/// The two-command dynamic batch: set address to dynamic, then set DNS to
/// dynamic.
pub open spec fn spec_set_dynamic(name: Seq<char>) -> Seq<CommandView> {
    seq![
        CommandView { kind: CommandKind::Ip, text: spec_dynamic_address_cmd(name) },
        CommandView { kind: CommandKind::Dns, text: spec_dynamic_dns_cmd(name) },
    ]
}

/// The add-address commands for the static addresses after the primary.
pub open spec fn spec_additional_cmds(name: Seq<char>, addrs: Seq<Address>) -> Seq<CommandView> {
    addrs.map_values(|a: Address| CommandView {
        kind: CommandKind::Ip,
        text: spec_add_address_cmd(name, a),
    })
}

/// The gateway commands, in gateway order.
pub open spec fn spec_gateway_cmds(name: Seq<char>, gs: Seq<IpAddress>) -> Seq<CommandView> {
    gs.map_values(|g: IpAddress| CommandView {
        kind: CommandKind::Gateway,
        text: spec_gateway_cmd(name, g),
    })
}

/// The DNS commands, in server order.
pub open spec fn spec_dns_cmds(name: Seq<char>, ds: Seq<IpAddress>) -> Seq<CommandView> {
    ds.map_values(|d: IpAddress| CommandView {
        kind: CommandKind::Dns,
        text: spec_dns_cmd(name, d),
    })
}

/// The full static batch: the primary set-address command, then one
/// add-address per further address, then the gateways, then the DNS
/// servers, in that order.
pub open spec fn spec_set_static(
    name: Seq<char>,
    addrs: Seq<Address>,
    gs: Seq<IpAddress>,
    ds: Seq<IpAddress>,
) -> Seq<CommandView> {
    seq![CommandView { kind: CommandKind::Ip, text: spec_static_primary_cmd(name, addrs[0]) }]
        + spec_additional_cmds(name, addrs.skip(1)) + spec_gateway_cmds(name, gs) + spec_dns_cmds(
        name,
        ds,
    )
}

/// A static configuration with no address at all is a caller contract
/// violation: it is rejected before any command is built.
#[derive(Clone, Copy, Debug, PartialEq, Eq, Structural)]
pub enum SetIpError {
    /// Static mode needs at least one address.
    InvalidStaticConfiguration,
}

/// Appends the quoted name token.
fn append_name_field(out: &mut String, name: &str)
    ensures
        final(out)@ == old(out)@ + spec_name_field(name@),
{
    out.append("name=\"");
    out.append(name);
    out.append("\"");
    proof {
        assert(out@ =~= old(out)@ + spec_name_field(name@));
    }
}

/// Appends the text of one address, either family.
fn append_ip(out: &mut String, ip: &IpAddress)
    ensures
        final(out)@ == old(out)@ + spec_ip_text(*ip),
{
    let t = format_ip_address(ip);
    out.append(t.as_str());
}

/// Builds the two commands that switch an adapter to dynamic addressing:
/// set address from DHCP, then set DNS from DHCP.
pub fn set_dynamic_ip(nic_name: &str) -> (r: Vec<Command>)
    ensures
        command_views(r@) == spec_set_dynamic(nic_name@),
{
    let mut addr_text = String::new();
    addr_text.append("interface ip set address ");
    append_name_field(&mut addr_text, nic_name);
    addr_text.append(" source=dhcp");
    let mut dns_text = String::new();
    dns_text.append("interface ip set dns ");
    append_name_field(&mut dns_text, nic_name);
    dns_text.append(" source=dhcp");
    let mut r: Vec<Command> = Vec::new();
    r.push(Command { kind: CommandKind::Ip, text: addr_text });
    r.push(Command { kind: CommandKind::Dns, text: dns_text });
    proof {
        assert(command_views(r@) =~~= spec_set_dynamic(nic_name@));
    }
    r
}

/// Builds the ordered command batch for a fully specified static
/// configuration. The first address is the primary; an empty address list
/// is rejected before any command is built.
pub fn set_static_ip(
    nic_name: &str,
    address: &[Address],
    gateway: &[IpAddress],
    dns: &[IpAddress],
) -> (r: Result<Vec<Command>, SetIpError>)
    ensures
        r is Err <==> address@.len() == 0,
        r is Err ==> r == Err::<Vec<Command>, SetIpError>(SetIpError::InvalidStaticConfiguration),
        r matches Ok(cmds) ==> command_views(cmds@) == spec_set_static(
            nic_name@,
            address@,
            gateway@,
            dns@,
        ),
{
    if address.len() == 0 {
        return Err(SetIpError::InvalidStaticConfiguration);
    }
    let na = address.len();
    let ng = gateway.len();
    let nd = dns.len();
    let mut r: Vec<Command> = Vec::new();

    let mut primary = String::new();
    primary.append("interface ip set address ");
    append_name_field(&mut primary, nic_name);
    primary.append(" static ");
    append_ip(&mut primary, &address[0].ip);
    primary.append(" ");
    append_ip(&mut primary, &address[0].netmask);
    r.push(Command { kind: CommandKind::Ip, text: primary });
    proof {
        assert(r@[0]@.text =~= spec_static_primary_cmd(nic_name@, address@[0]));
    }

    let mut i: usize = 1;
    while i < na
        invariant
            1 <= i <= na,
            na == address@.len(),
            r@.len() == i,
            r@[0]@.kind == CommandKind::Ip,
            r@[0]@.text == spec_static_primary_cmd(nic_name@, address@[0]),
            forall|x: int|
                1 <= x < i ==> (#[trigger] r@[x])@.kind == CommandKind::Ip && r@[x]@.text
                    == spec_add_address_cmd(nic_name@, address@[x]),
        decreases na - i,
    {
        let mut t = String::new();
        t.append("interface ip add address ");
        append_name_field(&mut t, nic_name);
        t.append(" ");
        append_ip(&mut t, &address[i].ip);
        t.append(" ");
        append_ip(&mut t, &address[i].netmask);
        proof {
            assert(t@ =~= spec_add_address_cmd(nic_name@, address@[i as int]));
        }
        r.push(Command { kind: CommandKind::Ip, text: t });
        i = i + 1;
    }

    let mut j: usize = 0;
    while j < ng
        invariant
            j <= ng,
            1 <= na,
            na == address@.len(),
            ng == gateway@.len(),
            r@.len() == na + j,
            r@[0]@.kind == CommandKind::Ip,
            r@[0]@.text == spec_static_primary_cmd(nic_name@, address@[0]),
            forall|x: int|
                1 <= x < na ==> (#[trigger] r@[x])@.kind == CommandKind::Ip && r@[x]@.text
                    == spec_add_address_cmd(nic_name@, address@[x]),
            forall|x: int|
                na <= x < na + j ==> (#[trigger] r@[x])@.kind == CommandKind::Gateway
                    && r@[x]@.text == spec_gateway_cmd(nic_name@, gateway@[x - na]),
        decreases ng - j,
    {
        let mut t = String::new();
        t.append("interface ip add address ");
        append_name_field(&mut t, nic_name);
        t.append(" gateway=");
        append_ip(&mut t, &gateway[j]);
        t.append(" gwmetric=0");
        proof {
            assert(t@ =~= spec_gateway_cmd(nic_name@, gateway@[j as int]));
        }
        r.push(Command { kind: CommandKind::Gateway, text: t });
        j = j + 1;
    }

    let mut k: usize = 0;
    while k < nd
        invariant
            k <= nd,
            1 <= na,
            na == address@.len(),
            ng == gateway@.len(),
            nd == dns@.len(),
            r@.len() == na + ng + k,
            r@[0]@.kind == CommandKind::Ip,
            r@[0]@.text == spec_static_primary_cmd(nic_name@, address@[0]),
            forall|x: int|
                1 <= x < na ==> (#[trigger] r@[x])@.kind == CommandKind::Ip && r@[x]@.text
                    == spec_add_address_cmd(nic_name@, address@[x]),
            forall|x: int|
                na <= x < na + ng ==> (#[trigger] r@[x])@.kind == CommandKind::Gateway
                    && r@[x]@.text == spec_gateway_cmd(nic_name@, gateway@[x - na]),
            forall|x: int|
                na + ng <= x < na + ng + k ==> (#[trigger] r@[x])@.kind == CommandKind::Dns
                    && r@[x]@.text == spec_dns_cmd(nic_name@, dns@[x - na - ng]),
        decreases nd - k,
    {
        let mut t = String::new();
        t.append("interface ip add dns ");
        append_name_field(&mut t, nic_name);
        t.append(" ");
        append_ip(&mut t, &dns[k]);
        proof {
            assert(t@ =~= spec_dns_cmd(nic_name@, dns@[k as int]));
        }
        r.push(Command { kind: CommandKind::Dns, text: t });
        k = k + 1;
    }

    proof {
        let rhs = spec_set_static(nic_name@, address@, gateway@, dns@);
        assert(spec_additional_cmds(nic_name@, address@.skip(1)).len() == na - 1);
        assert(spec_gateway_cmds(nic_name@, gateway@).len() == ng);
        assert(spec_dns_cmds(nic_name@, dns@).len() == nd);
        assert(rhs.len() == na + ng + nd);
        assert forall|x: int| 0 <= x < rhs.len() implies command_views(r@)[x] == rhs[x] by {
            assert(command_views(r@)[x] == r@[x]@);
            if x == 0 {
                assert(rhs[x] == (CommandView {
                    kind: CommandKind::Ip,
                    text: spec_static_primary_cmd(nic_name@, address@[0]),
                }));
            } else if x < na {
                assert(rhs[x] == spec_additional_cmds(nic_name@, address@.skip(1))[x - 1]);
                assert(address@.skip(1)[x - 1] == address@[x]);
            } else if x < na + ng {
                assert(rhs[x] == spec_gateway_cmds(nic_name@, gateway@)[x - na]);
            } else {
                assert(rhs[x] == spec_dns_cmds(nic_name@, dns@)[x - na - ng]);
            }
        }
        assert(command_views(r@) =~= rhs);
    }
    Ok(r)
}

/// What the GB18030 strict encoder yields for a text: its byte encoding,
/// or nothing when some character cannot be encoded. A pure function of
/// the text.
pub uninterp spec fn gb18030_encoded(s: Seq<char>) -> Option<Seq<u8>>;

/// What the GB18030 strict decoder yields for a byte string: its text, or
/// nothing when the bytes are not well-formed GB18030. A pure function of
/// the bytes.
pub uninterp spec fn gb18030_decoded(b: Seq<u8>) -> Option<Seq<char>>;

/// Relies on the encoding crate's GB18030 `Encoding::encode` with the
/// strict trap: the result is a function of the input text alone, and the
/// strict trap fails exactly on unencodable characters.
#[verifier::external_body]
fn gb18030_encode(s: &str) -> (r: Option<Vec<u8>>)
    ensures
        match r {
            Some(b) => gb18030_encoded(s@) == Some(b@),
            None => gb18030_encoded(s@) is None,
        },
{
    encoding::Encoding::encode(encoding::all::GB18030, s, encoding::EncoderTrap::Strict).ok()
}

/// Relies on the encoding crate's GB18030 `Encoding::decode` with the
/// strict trap: the result is a function of the input bytes alone, and the
/// strict trap fails exactly on malformed input.
#[verifier::external_body]
fn gb18030_decode(bytes: &[u8]) -> (r: Option<String>)
    ensures
        match r {
            Some(s) => gb18030_decoded(bytes@) == Some(s@),
            None => gb18030_decoded(bytes@) is None,
        },
{
    encoding::Encoding::decode(encoding::all::GB18030, bytes, encoding::DecoderTrap::Strict).ok()
}

/// Transcodes captured tool output from GB18030; `None` exactly when the
/// bytes are not well-formed GB18030.
pub fn decode_output(bytes: &[u8]) -> (r: Option<String>)
    ensures
        match r {
            Some(s) => gb18030_decoded(bytes@) == Some(s@),
            None => gb18030_decoded(bytes@) is None,
        },
{
    gb18030_decode(bytes)
}

/// The line handed to the shell for one command: the tool's name, the
/// argument text.
pub open spec fn spec_line_of(c: CommandView) -> Seq<char> {
    "netsh.exe "@ + c.text
}

/// The encoded bytes of one command line with its terminating newline;
/// meaningful when the line is encodable.
pub open spec fn spec_line_bytes(c: CommandView) -> Seq<u8> {
    gb18030_encoded(spec_line_of(c))->0 + seq![10u8]
}

/// The encoded command lines of a batch, in order.
pub open spec fn spec_frames(cs: Seq<CommandView>) -> Seq<u8>
    decreases cs.len(),
{
    if cs.len() == 0 {
        Seq::empty()
    } else {
        spec_frames(cs.drop_last()) + spec_line_bytes(cs.last())
    }
}

/// The bytes closing an interactive batch: `pause`, then `exit`, each with
/// a newline.
pub open spec fn spec_batch_tail() -> Seq<u8> {
    seq![112u8, 97u8, 117u8, 115u8, 101u8, 10u8, 101u8, 120u8, 105u8, 116u8, 10u8]
}

/// A command whose line cannot be represented in the tool's encoding.
#[derive(Clone, Copy, Debug, PartialEq, Eq, Structural)]
pub enum CommandEncodeError {
    /// The command at this position in the batch cannot be encoded.
    Unencodable {
        /// Position of the offending command, counted from zero.
        index: usize,
    },
}

/// Builds the byte stream piped to the shell for a synchronous batch: each
/// command's encoded line, then `pause` and `exit`. Fails on the first
/// command whose line the encoding cannot represent.
pub fn batch_input(commands: &Vec<Command>) -> (r: Result<Vec<u8>, CommandEncodeError>)
    ensures
        r matches Ok(b) ==> (forall|j: int|
            0 <= j < commands@.len() ==> gb18030_encoded(
                spec_line_of((#[trigger] commands@[j])@),
            ) is Some) && b@ == spec_frames(command_views(commands@)) + spec_batch_tail(),
        r matches Err(e) ==> (e matches CommandEncodeError::Unencodable { index } && index
            < commands@.len() && gb18030_encoded(spec_line_of(commands@[index as int]@)) is None
            && (forall|j: int|
            0 <= j < index ==> gb18030_encoded(
                spec_line_of((#[trigger] commands@[j])@),
            ) is Some)),
{
    let n = commands.len();
    let mut out: Vec<u8> = Vec::new();
    proof {
        assert(command_views(commands@).take(0) =~= Seq::<CommandView>::empty());
    }
    let mut i: usize = 0;
    while i < n
        invariant
            i <= n,
            n == commands@.len(),
            forall|j: int|
                0 <= j < i ==> gb18030_encoded(
                    spec_line_of((#[trigger] commands@[j])@),
                ) is Some,
            out@ == spec_frames(command_views(commands@).take(i as int)),
        decreases n - i,
    {
        let mut line = String::new();
        line.append("netsh.exe ");
        line.append(commands[i].text.as_str());
        proof {
            assert(line@ =~= spec_line_of(commands@[i as int]@));
        }
        match gb18030_encode(line.as_str()) {
            None => {
                return Err(CommandEncodeError::Unencodable { index: i });
            },
            Some(mut b) => {
                out.append(&mut b);
                out.push(10);
                proof {
                    let cv = command_views(commands@);
                    assert(cv.take(i + 1).drop_last() =~= cv.take(i as int));
                    assert(cv.take(i + 1).last() == cv[i as int]);
                    assert(cv[i as int] == commands@[i as int]@);
                    assert(out@ =~= spec_frames(cv.take(i as int)) + spec_line_bytes(
                        cv[i as int],
                    ));
                }
            },
        }
        i = i + 1;
    }
    out.push(112);
    out.push(97);
    out.push(117);
    out.push(115);
    out.push(101);
    out.push(10);
    out.push(101);
    out.push(120);
    out.push(105);
    out.push(116);
    out.push(10);
    proof {
        assert(command_views(commands@).take(n as int) =~= command_views(commands@));
        assert(out@ =~= spec_frames(command_views(commands@)) + spec_batch_tail());
    }
    Ok(out)
}

/// What the runner observed for one spawned command.
#[derive(Debug)]
pub enum StepOutcome {
    /// The configuration tool could not be launched.
    SpawnFailed,
    /// The tool ran to completion with this exit disposition and captured
    /// raw output.
    Completed {
        /// Whether the tool exited successfully.
        exit_ok: bool,
        /// The raw captured output bytes.
        output: Vec<u8>,
    },
}

/// The reported disposition of one step.
#[derive(Debug)]
pub enum StepStatus {
    /// The tool ran and exited successfully; the transcoded output.
    Output {
        /// The transcoded tool output.
        text: String,
    },
    /// The tool launched but exited with a failure status; reported, and
    /// the batch continues.
    ExitFailure {
        /// The transcoded tool output.
        text: String,
    },
    /// The tool's output was not decodable; reported as this step's
    /// failure, and the batch continues.
    UndecodableOutput,
    /// The tool could not be launched; the remaining sequence is halted.
    SpawnError,
}

/// One per-step report: the step's position in the sequence counted from
/// one, its category, and its disposition.
#[derive(Debug)]
pub struct StepReport {
    /// The step's position in the sequence, counted from one.
    pub index: usize,
    /// The step's category.
    pub kind: CommandKind,
    /// The step's disposition.
    pub status: StepStatus,
}

/// The abstract value of a batch run.
#[verifier::ext_equal]
pub struct BatchView {
    /// The commands of the batch, in order.
    pub commands: Seq<CommandView>,
    /// How many steps have been issued and recorded.
    pub next: int,
    /// Whether a spawn failure has halted the batch.
    pub halted: bool,
}

/// Well-formedness of a batch run: the step cursor stays within the batch.
pub open spec fn batch_wf(b: BatchView) -> bool {
    0 <= b.next <= b.commands.len()
}

/// A batch of configuration commands run one process at a time: the runner
/// takes the next command, spawns it, and records what happened; a spawn
/// failure halts the remaining sequence, while a step that ran and failed
/// is reported and the batch continues.
#[derive(Debug)]
pub struct BatchState {
    commands: Vec<Command>,
    next: usize,
    halted: bool,
}

impl View for BatchState {
    type V = BatchView;

    closed spec fn view(&self) -> BatchView {
        BatchView {
            commands: command_views(self.commands@),
            next: self.next as int,
            halted: self.halted,
        }
    }
}

impl BatchState {
    /// Starts a run of the given batch.
    pub fn new(commands: Vec<Command>) -> (r: Self)
        ensures
            r@.commands == command_views(commands@),
            r@.next == 0,
            !r@.halted,
            batch_wf(r@),
    {
        BatchState { commands, next: 0, halted: false }
    }

    /// The command the runner should spawn next; nothing when the batch is
    /// done or halted.
    pub fn next_command(&self) -> (r: Option<&Command>)
        requires
            batch_wf(self@),
        ensures
            match r {
                Some(c) => !self@.halted && self@.next < self@.commands.len() && c@
                    == self@.commands[self@.next],
                None => self@.halted || self@.next == self@.commands.len(),
            },
    {
        if self.halted || self.next >= self.commands.len() {
            None
        } else {
            proof {
                assert(self@.commands[self@.next] == self.commands@[self.next as int]@);
            }
            Some(&self.commands[self.next])
        }
    }

    /// Whether the run is over: every step recorded, or the batch halted.
    pub fn finished(&self) -> (r: bool)
        requires
            batch_wf(self@),
        ensures
            r == (self@.halted || self@.next == self@.commands.len()),
    {
        self.halted || self.next >= self.commands.len()
    }

    /// Records what the runner observed for the current step and reports
    /// it: a spawn failure halts the remaining sequence; a completed step
    /// advances the batch, its output transcoded, an exit failure or
    /// undecodable output reported as that step's failure.
    pub fn record(&mut self, outcome: StepOutcome) -> (r: StepReport)
        requires
            batch_wf(old(self)@),
            !old(self)@.halted,
            old(self)@.next < old(self)@.commands.len(),
        ensures
            batch_wf(final(self)@),
            final(self)@.commands == old(self)@.commands,
            r.index == old(self)@.next + 1,
            r.kind == old(self)@.commands[old(self)@.next].kind,
            outcome is SpawnFailed ==> r.status is SpawnError && final(self)@.halted
                && final(self)@.next == old(self)@.next,
            outcome matches StepOutcome::Completed { exit_ok, output } ==> !final(self)@.halted
                && final(self)@.next == old(self)@.next + 1 && (match gb18030_decoded(output@) {
                Some(t) => (
                if exit_ok {
                    r.status matches StepStatus::Output { text } && text@ == t
                } else {
                    r.status matches StepStatus::ExitFailure { text } && text@ == t
                }),
                None => r.status is UndecodableOutput,
            }),
    {
        let n = self.commands.len();
        proof {
            assert(old(self)@.commands.len() == self.commands@.len());
            assert(old(self)@.commands[old(self)@.next]
                == self.commands@[self.next as int]@);
        }
        let kind = self.commands[self.next].kind;
        let index = self.next + 1;
        match outcome {
            StepOutcome::SpawnFailed => {
                self.halted = true;
                StepReport { index, kind, status: StepStatus::SpawnError }
            },
            StepOutcome::Completed { exit_ok, output } => {
                self.next = self.next + 1;
                let status = match gb18030_decode(output.as_slice()) {
                    Some(text) => if exit_ok {
                        StepStatus::Output { text }
                    } else {
                        StepStatus::ExitFailure { text }
                    },
                    None => StepStatus::UndecodableOutput,
                };
                StepReport { index, kind, status }
            },
        }
    }
}

} // verus!
