//! Host-side session rules: who may moderate, which accounts are one
//! player, when a discovery has physically settled, and what a guest's
//! inventory gives up for a request.

use vstd::prelude::*;
use crate::planet::{BlockPos, ChunkPos, spec_on_face};
use crate::inventory::{Inventory, ItemStack, TOTAL_SLOTS, spec_take_one};
use crate::registry::{ItemId, Registry};
use crate::text::{str_eq, starts_with, push_decimal, spec_decimal};

verus! {

/// Milliseconds a lens or apparatus must rest before its discovery settles.
pub const DISCOVERY_SETTLE_MS: u64 = 1200;
/// Longest timed mute or ban, in seconds.
pub const MAX_TIMED_SANCTION_SECONDS: u32 = 86400;

/// Standing of a player on this host.
#[derive(Clone, Copy, PartialEq, Eq, Debug, Hash, Structural)]
pub enum Role {
    Player,
    Moderator,
    Admin,
    Owner,
}

pub open spec fn spec_can_moderate(role: Role) -> bool {
    role != Role::Player
}

pub open spec fn spec_can_administer(role: Role) -> bool {
    role == Role::Admin || role == Role::Owner
}

impl Role {
    /// Moderators and above may kick, mute and ban for a bounded time.
    pub fn can_moderate(self) -> (r: bool)
        ensures
            r == spec_can_moderate(self),
    {
        match self {
            Role::Player => false,
            _ => true,
        }
    }

    /// Admins and owners may ban permanently, allow and change roles.
    pub fn can_administer(self) -> (r: bool)
        ensures
            r == spec_can_administer(self),
    {
        match self {
            Role::Admin | Role::Owner => true,
            _ => false,
        }
    }
}

/// Chat messages a guest may send before the next rate-limit reset.
pub const CHAT_RATE_LIMIT: u8 = 5;
/// Characters of a chat message that are kept.
pub const CHAT_MAX_CHARS: usize = 200;

/// What the host does with one chat message.
#[derive(Debug, PartialEq, Eq)]
pub enum ChatAction {
    /// Refused: the guest is rate-limited or muted.
    Refuse,
    /// A stamp command: only the host player's console runs it.
    StampOnHostConsole,
    /// A world command, run with the kept message.
    Command(String),
    /// Broadcast the kept message to everyone.
    Broadcast(String),
}

/// The first `CHAT_MAX_CHARS` characters of `msg`.
pub open spec fn spec_kept(msg: Seq<char>) -> Seq<char> {
    if msg.len() <= CHAT_MAX_CHARS {
        msg
    } else {
        msg.take(CHAT_MAX_CHARS as int)
    }
}

/// `s` without its leading whitespace.
pub open spec fn spec_trim_start(s: Seq<char>) -> Seq<char>
    decreases s.len(),
{
    if s.len() > 0 && crate::text::spec_is_whitespace(s[0]) {
        spec_trim_start(s.drop_first())
    } else {
        s
    }
}

/// The action and the guest's next message count for one chat message:
/// refused while rate-limited or muted; otherwise counted, and a message
/// starting with `!` is a command (a stamp command only on the host
/// console), any other is broadcast.
pub open spec fn spec_chat(chat_count: u8, muted: bool, msg: Seq<char>) -> (u8, Option<Seq<char>>, int) {
    let kept = spec_kept(msg);
    if chat_count >= CHAT_RATE_LIMIT || muted {
        (chat_count, None, 0)
    } else if kept.len() > 0 && kept[0] == '!' {
        if crate::text::spec_starts_with(spec_trim_start(kept.drop_first()), "stamp "@) {
            ((chat_count + 1) as u8, None, 1)
        } else {
            ((chat_count + 1) as u8, Some(kept), 2)
        }
    } else {
        ((chat_count + 1) as u8, Some(kept), 3)
    }
}

pub open spec fn chat_view(a: ChatAction) -> (Option<Seq<char>>, int) {
    match a {
        ChatAction::Refuse => (None, 0),
        ChatAction::StampOnHostConsole => (None, 1),
        ChatAction::Command(m) => (Some(m@), 2),
        ChatAction::Broadcast(m) => (Some(m@), 3),
    }
}

/// Decide what happens to one chat message from a guest who has sent
/// `chat_count` since the last reset; returns the next count too.
pub fn chat_action(chat_count: u8, muted: bool, msg: &str) -> (r: (u8, ChatAction))
    ensures
        r.0 == spec_chat(chat_count, muted, msg@).0,
        chat_view(r.1) == (spec_chat(chat_count, muted, msg@).1, spec_chat(chat_count, muted, msg@).2),
{
    if chat_count >= CHAT_RATE_LIMIT || muted {
        return (chat_count, ChatAction::Refuse);
    }
    let n = msg.unicode_len();
    let keep = if n <= CHAT_MAX_CHARS { n } else { CHAT_MAX_CHARS };
    let kept = String::from_str(msg.substring_char(0, keep));
    assert(kept@ =~= spec_kept(msg@));
    let next = chat_count + 1;
    if keep > 0 && kept.as_str().get_char(0) == '!' {
        let mut j: usize = 1;
        assert(kept@.drop_first() =~= kept@.skip(1));
        while j < keep && crate::text::is_whitespace(kept.as_str().get_char(j))
            invariant
                1 <= j <= keep,
                kept@.len() == keep,
                spec_trim_start(kept@.drop_first()) == spec_trim_start(kept@.skip(j as int)),
            decreases keep - j,
        {
            assert(kept@.skip(j as int).drop_first() =~= kept@.skip(j + 1));
            j = j + 1;
        }
        let ghost rest = kept@.skip(j as int);
        proof {
            if j < keep {
                assert(rest[0] == kept@[j as int]);
            }
            assert(spec_trim_start(rest) == rest);
        }
        let stamp = starts_with(kept.as_str().substring_char(j, keep), "stamp ");
        assert(kept@.subrange(j as int, keep as int) =~= rest);
        if stamp {
            (next, ChatAction::StampOnHostConsole)
        } else {
            (next, ChatAction::Command(kept))
        }
    } else {
        (next, ChatAction::Broadcast(kept))
    }
}

/// Commands other than movement a guest may send per second of sim time.
pub const COMMANDS_PER_SECOND: u16 = 160;
/// Chunk requests a guest may send per second.
pub const CHUNK_REQUESTS_PER_SECOND: u32 = 32;

/// A guest's acknowledgement of entry is accepted once: when it has not
/// entered yet and every host-declared entry chunk was sent to it.
pub open spec fn spec_entry_accepted(entry_ready: bool, required: Seq<ChunkPos>, sent: Seq<ChunkPos>) -> bool {
    !entry_ready && forall|i: int| 0 <= i < required.len() ==> sent.contains(#[trigger] required[i])
}

pub fn entry_accepted(entry_ready: bool, required: &Vec<ChunkPos>, sent: &Vec<ChunkPos>) -> (r: bool)
    ensures
        r == spec_entry_accepted(entry_ready, required@, sent@),
{
    if entry_ready {
        return false;
    }
    let mut i: usize = 0;
    while i < required.len()
        invariant
            i <= required@.len(),
            forall|k: int| 0 <= k < i ==> sent@.contains(#[trigger] required@[k]),
        decreases required@.len() - i,
    {
        let want = required[i];
        let mut found = false;
        let mut j: usize = 0;
        while j < sent.len()
            invariant
                j <= sent@.len(),
                found ==> sent@.contains(want),
                !found ==> forall|k: int| 0 <= k < j ==> sent@[k] != want,
            decreases sent@.len() - j,
        {
            if sent[j] == want {
                found = true;
            }
            j = j + 1;
        }
        if !found {
            proof {
                assert(!sent@.contains(required@[i as int]));
            }
            return false;
        }
        i = i + 1;
    }
    true
}

/// The view distance granted for a requested one: at least two chunks and
/// at most `max_view`.
pub open spec fn spec_granted_view(chunks: u8, max_view: u8) -> u8 {
    if chunks < 2 {
        2
    } else if chunks > max_view {
        max_view
    } else {
        chunks
    }
}

pub fn granted_view_distance(chunks: u8, max_view: u8) -> (r: u8)
    requires
        max_view >= 2,
    ensures
        r == spec_granted_view(chunks, max_view),
        2 <= r <= max_view,
{
    if chunks < 2 {
        2
    } else if chunks > max_view {
        max_view
    } else {
        chunks
    }
}

/// Count one command against the guest's budget: movement is free, any
/// other command is dropped (`None`) once the budget is spent.
pub fn count_command(command_count: u16, is_move: bool) -> (r: Option<u16>)
    ensures
        is_move ==> r == Some(command_count),
        !is_move && command_count >= COMMANDS_PER_SECOND ==> r is None,
        !is_move && command_count < COMMANDS_PER_SECOND ==> r == Some((command_count + 1) as u16),
{
    if is_move {
        Some(command_count)
    } else if command_count >= COMMANDS_PER_SECOND {
        None
    } else {
        Some(command_count + 1)
    }
}

/// Count one chunk request against the guest's budget; `None` once it is
/// spent.
pub fn count_chunk_request(chunk_requests: u32) -> (r: Option<u32>)
    ensures
        chunk_requests >= CHUNK_REQUESTS_PER_SECOND ==> r is None,
        chunk_requests < CHUNK_REQUESTS_PER_SECOND ==> r == Some((chunk_requests + 1) as u32),
{
    if chunk_requests >= CHUNK_REQUESTS_PER_SECOND {
        None
    } else {
        Some(chunk_requests + 1)
    }
}

/// A moderation request from a remote player.
#[derive(Clone, Copy, PartialEq, Eq, Debug, Structural)]
#[allow(inconsistent_fields)]
pub enum ModerationAction {
    Kick,
    Mute { seconds: u32 },
    /// `None` bans until lifted.
    Ban { seconds: Option<u32> },
    Allow,
    CycleRole,
}

pub open spec fn timed_ok(seconds: u32) -> bool {
    1 <= seconds <= MAX_TIMED_SANCTION_SECONDS
}

pub open spec fn spec_moderation_action_allowed(role: Role, action: ModerationAction) -> bool {
    spec_can_moderate(role) && match action {
        ModerationAction::Kick => true,
        ModerationAction::Mute { seconds } => timed_ok(seconds),
        ModerationAction::Ban { seconds: Some(seconds) } => timed_ok(seconds),
        ModerationAction::Ban { seconds: None } => spec_can_administer(role),
        ModerationAction::Allow => spec_can_administer(role),
        ModerationAction::CycleRole => spec_can_administer(role),
    }
}

/// Whether a player of `role` may perform `action`. The host decides this;
/// the requesting client's claim of its own role counts for nothing.
pub fn moderation_action_allowed(role: Role, action: ModerationAction) -> (r: bool)
    ensures
        r == spec_moderation_action_allowed(role, action),
{
    if !role.can_moderate() {
        return false;
    }
    match action {
        ModerationAction::Kick => true,
        ModerationAction::Mute { seconds } => 1 <= seconds && seconds <= MAX_TIMED_SANCTION_SECONDS,
        ModerationAction::Ban { seconds: Some(seconds) } => 1 <= seconds && seconds
            <= MAX_TIMED_SANCTION_SECONDS,
        ModerationAction::Ban { seconds: None } => role.can_administer(),
        ModerationAction::Allow => role.can_administer(),
        ModerationAction::CycleRole => role.can_administer(),
    }
}

/// What a remote moderation request is refused with, if anything: a player
/// cannot moderate themselves, nobody, or someone not connected, and their
/// host role must permit the action.
pub open spec fn spec_request_refusal(actor: u32, target: u32, target_connected: bool, role: Role, action: ModerationAction) -> Option<
    Seq<char>,
> {
    if actor == target || target == 0 || !target_connected {
        Some("That player cannot be moderated from this session."@)
    } else if !spec_moderation_action_allowed(role, action) {
        Some("Your server role does not permit that action."@)
    } else {
        None
    }
}

/// The refusal a remote moderation request gets, or `None` when the host
/// carries it out.
pub fn moderation_request_refusal(
    actor: u32,
    target: u32,
    target_connected: bool,
    role: Role,
    action: ModerationAction,
) -> (r: Option<&'static str>)
    ensures
        match r {
            Some(m) => spec_request_refusal(actor, target, target_connected, role, action) == Some(m@),
            None => spec_request_refusal(actor, target, target_connected, role, action) is None,
        },
{
    if actor == target || target == 0 || !target_connected {
        Some("That player cannot be moderated from this session.")
    } else if !moderation_action_allowed(role, action) {
        Some("Your server role does not permit that action.")
    } else {
        None
    }
}

/// The role a role cycle gives: players become moderators, everyone else
/// becomes a player.
pub open spec fn spec_cycled_role(role: Role) -> Role {
    match role {
        Role::Player => Role::Moderator,
        _ => Role::Player,
    }
}

pub fn cycled_role(role: Role) -> (r: Role)
    ensures
        r == spec_cycled_role(role),
{
    match role {
        Role::Player => Role::Moderator,
        _ => Role::Player,
    }
}

pub open spec fn spec_role_name(role: Role) -> Seq<char> {
    match role {
        Role::Player => "Player"@,
        Role::Moderator => "Moderator"@,
        Role::Admin => "Admin"@,
        Role::Owner => "Owner"@,
    }
}

fn role_name(role: Role) -> (r: &'static str)
    ensures
        r@ == spec_role_name(role),
{
    match role {
        Role::Player => "Player",
        Role::Moderator => "Moderator",
        Role::Admin => "Admin",
        Role::Owner => "Owner",
    }
}

/// What the moderator is told: the failure, that the target left, or what
/// was done to `name` (the role set by a cycle is `next_role`).
pub open spec fn spec_moderation_message(
    action: ModerationAction,
    name: Seq<char>,
    next_role: Role,
    result: Result<bool, Seq<char>>,
) -> Seq<char> {
    match result {
        Err(e) => "Moderation failed: "@ + e,
        Ok(false) => "Player is no longer connected."@,
        Ok(true) => match action {
            ModerationAction::Kick => name + " kicked"@,
            ModerationAction::Mute { seconds } => "player muted for "@ + spec_decimal(seconds as nat) + " seconds"@,
            ModerationAction::Ban { seconds: Some(seconds) } => name + " banned for "@ + spec_decimal(seconds as nat)
                + " seconds"@,
            ModerationAction::Ban { seconds: None } => name + " permanently banned"@,
            ModerationAction::Allow => "player added to allowlist"@,
            ModerationAction::CycleRole => "role set to "@ + spec_role_name(next_role),
        },
    }
}

pub open spec fn result_view(r: Result<bool, String>) -> Result<bool, Seq<char>> {
    match r {
        Ok(b) => Ok(b),
        Err(e) => Err(e@),
    }
}

/// The message a moderator gets once the host carried out `action`.
pub fn moderation_message(action: ModerationAction, name: &str, next_role: Role, result: &Result<bool, String>) -> (r: String)
    ensures
        r@ == spec_moderation_message(action, name@, next_role, result_view(*result)),
{
    match result {
        Err(e) => {
            let mut m = String::from_str("Moderation failed: ");
            m.append(e.as_str());
            m
        },
        Ok(false) => String::from_str("Player is no longer connected."),
        Ok(true) => match action {
            ModerationAction::Kick => {
                let mut m = String::from_str(name);
                m.append(" kicked");
                m
            },
            ModerationAction::Mute { seconds } => {
                let mut m = String::from_str("player muted for ");
                push_decimal(&mut m, seconds as u64);
                m.append(" seconds");
                m
            },
            ModerationAction::Ban { seconds: Some(seconds) } => {
                let mut m = String::from_str(name);
                m.append(" banned for ");
                push_decimal(&mut m, seconds as u64);
                m.append(" seconds");
                m
            },
            ModerationAction::Ban { seconds: None } => {
                let mut m = String::from_str(name);
                m.append(" permanently banned");
                m
            },
            ModerationAction::Allow => String::from_str("player added to allowlist"),
            ModerationAction::CycleRole => {
                let mut m = String::from_str("role set to ");
                m.append(role_name(next_role));
                m
            },
        },
    }
}


/// A decentralized account identifier of the form `did:<method>:<id>`.
#[derive(Clone, Debug)]
pub struct AtprotoDid {
    did: String,
}

pub open spec fn spec_valid_did(s: Seq<char>) -> bool {
    s.len() > 4 && s.subrange(0, 4) == "did:"@
}

impl AtprotoDid {
    pub closed spec fn view(&self) -> Seq<char> {
        self.did@
    }

    /// The identifier, if `s` starts with `did:` and names something.
    pub fn parse(s: &str) -> (r: Option<AtprotoDid>)
        ensures
            r is Some <==> spec_valid_did(s@),
            r matches Some(d) ==> d@ == s@,
    {
        let prefix = "did:";
        proof {
            reveal_strlit("did:");
        }
        if s.unicode_len() > 4 && starts_with(s, prefix) {
            Some(AtprotoDid { did: s.to_owned() })
        } else {
            None
        }
    }

    pub fn as_str(&self) -> (r: &str)
        ensures
            r@ == self@,
    {
        self.did.as_str()
    }
}

/// The public key id of one local device.
#[derive(Clone, Copy, Debug)]
pub struct DeviceKeyId(pub [u8; 32]);

impl DeviceKeyId {
    /// Whether both ids hold the same key bytes.
    pub fn same_key(&self, other: &DeviceKeyId) -> (r: bool)
        ensures
            r == (self.0@ == other.0@),
    {
        let mut i: usize = 0;
        while i < 32
            invariant
                i <= 32,
                forall|j: int| 0 <= j < i ==> self.0@[j] == other.0@[j],
            decreases 32 - i,
        {
            if self.0[i] != other.0[i] {
                assert(self.0@[i as int] != other.0@[i as int]);
                return false;
            }
            i = i + 1;
        }
        assert(self.0@ =~= other.0@);
        true
    }
}

/// An identity a connection proved control of.
#[derive(Clone, Debug)]
pub enum Principal {
    Atproto(AtprotoDid),
    LocalDevice(DeviceKeyId),
}

pub open spec fn same_principal(a: Principal, b: Principal) -> bool {
    match (a, b) {
        (Principal::Atproto(x), Principal::Atproto(y)) => x@ == y@,
        (Principal::LocalDevice(x), Principal::LocalDevice(y)) => x.0@ == y.0@,
        _ => false,
    }
}

/// Whether two principals name the same identity.
pub fn principal_eq(a: &Principal, b: &Principal) -> (r: bool)
    ensures
        r == same_principal(*a, *b),
{
    match (a, b) {
        (Principal::Atproto(x), Principal::Atproto(y)) => str_eq(x.as_str(), y.as_str()),
        (Principal::LocalDevice(x), Principal::LocalDevice(y)) => x.same_key(y),
        _ => false,
    }
}

pub open spec fn spec_shares_principal(left: Seq<Principal>, right: Seq<Principal>) -> bool {
    exists|i: int, j: int|
        0 <= i < left.len() && 0 <= j < right.len() && same_principal(left[i], right[j])
}

/// Whether two connections prove a common identity, so that they are the
/// same player (two devices signed into one account are one player).
pub fn shares_principal(left: &[Principal], right: &[Principal]) -> (r: bool)
    ensures
        r == spec_shares_principal(left@, right@),
{
    let mut i: usize = 0;
    while i < left.len()
        invariant
            i <= left@.len(),
            forall|a: int, b: int|
                0 <= a < i && 0 <= b < right@.len() ==> !same_principal(left@[a], right@[b]),
        decreases left@.len() - i,
    {
        let mut j: usize = 0;
        while j < right.len()
            invariant
                i < left@.len(),
                j <= right@.len(),
                forall|a: int, b: int|
                    0 <= a < i && 0 <= b < right@.len() ==> !same_principal(left@[a], right@[b]),
                forall|b: int| 0 <= b < j ==> !same_principal(left@[i as int], right@[b]),
            decreases right@.len() - j,
        {
            if principal_eq(&left[i], &right[j]) {
                return true;
            }
            j = j + 1;
        }
        i = i + 1;
    }
    false
}

/// What a lens observation was aimed at.
#[derive(Clone, Copy, PartialEq, Eq, Debug, Structural)]
pub enum DiscoveryTargetSnap {
    Region,
    Block { pos: BlockPos },
    Held { slot: u8 },
}

/// What a pending discovery will complete.
#[derive(Clone, Copy, PartialEq, Eq, Debug, Structural)]
pub enum PendingDiscoveryKind {
    Observation(DiscoveryTargetSnap),
    /// An apparatus experiment at a block; the second field is the
    /// experiment kind's index.
    Experiment(BlockPos, u16),
}

/// Host-owned proof that a lens or apparatus began to settle, with the host
/// clock in milliseconds when it began.
#[derive(Clone, Copy, Debug)]
pub struct PendingDiscovery {
    pub kind: PendingDiscoveryKind,
    pub began_ms: u64,
}

impl PendingDiscovery {
    /// Whether this discovery completes `kind` at host time `now_ms`: the
    /// same target, after the full settle time has elapsed on the host clock.
    pub fn settled_for(self, kind: PendingDiscoveryKind, now_ms: u64) -> (r: bool)
        ensures
            r == (self.kind == kind && now_ms >= self.began_ms && now_ms - self.began_ms
                >= DISCOVERY_SETTLE_MS),
    {
        self.kind == kind && now_ms.saturating_sub(self.began_ms) >= DISCOVERY_SETTLE_MS
    }
}

/// Where a discovery record is written.
#[derive(Clone, Copy, PartialEq, Eq, Debug, Structural)]
pub enum RecordHolderSnap {
    /// A field ledger or folio carried in the pack.
    Inventory { slot: u8 },
    /// A survey folio placed in the world.
    Folio { pos: BlockPos },
}

/// `p` is the block `(du, 0, dv)` away from `w` on the same face.
pub open spec fn spec_beside(w: BlockPos, du: int, dv: int, p: BlockPos) -> bool {
    spec_on_face(w.u + du, w.y as int, w.v + dv) && p == BlockPos {
        face: w.face,
        u: (w.u + du) as u16,
        y: w.y,
        v: (w.v + dv) as u16,
    }
}

pub open spec fn spec_at_writing_surface(holder: RecordHolderSnap, writing: BlockPos) -> bool {
    match holder {
        RecordHolderSnap::Inventory { .. } => true,
        RecordHolderSnap::Folio { pos } => spec_beside(writing, 1, 0, pos) || spec_beside(
            writing,
            -1,
            0,
            pos,
        ) || spec_beside(writing, 0, 1, pos) || spec_beside(writing, 0, -1, pos),
    }
}

/// Whether records can be copied at a writing surface into `holder`: a
/// carried holder always can; a placed folio must stand directly beside the
/// surface, on the same level.
pub fn discovery_holder_at_writing_surface(holder: RecordHolderSnap, writing_pos: BlockPos) -> (r:
    bool)
    ensures
        r == spec_at_writing_surface(holder, writing_pos),
{
    match holder {
        RecordHolderSnap::Inventory { .. } => true,
        RecordHolderSnap::Folio { pos } => {
            let east = writing_pos.offset(1, 0, 0);
            let west = writing_pos.offset(-1, 0, 0);
            let south = writing_pos.offset(0, 0, 1);
            let north = writing_pos.offset(0, 0, -1);
            let hit = |c: Option<BlockPos>| -> (b: bool)
                ensures
                    b == (c matches Some(q) && q == pos),
                {
                    match c {
                        Some(q) => q == pos,
                        None => false,
                    }
                };
            hit(east) || hit(west) || hit(south) || hit(north)
        },
    }
}

/// Every occupied slot holds at least one item.
pub open spec fn counts_positive(slots: Seq<Option<ItemStack>>) -> bool {
    forall|i: int| 0 <= i < slots.len() ==> (#[trigger] slots[i] matches Some(st) ==> st.count > 0)
}

pub open spec fn holds_item(s: Option<ItemStack>, item: ItemId) -> bool {
    s matches Some(st) && st.item == item
}

pub open spec fn first_slot_with(slots: Seq<Option<ItemStack>>, item: ItemId, i: int) -> bool {
    0 <= i < slots.len() && holds_item(slots[i], item) && forall|j: int|
        0 <= j < i ==> !holds_item(slots[j], item)
}

/// Take one of `item` from the first slot that holds it. Returns whether an
/// item was taken.
pub fn take_item(inventory: &mut Inventory, item: ItemId) -> (r: bool)
    requires
        counts_positive(old(inventory).slots@),
    ensures
        r == exists|i: int| 0 <= i < TOTAL_SLOTS && holds_item(old(inventory).slots@[i], item),
        r ==> exists|i: int|
            first_slot_with(old(inventory).slots@, item, i) && final(inventory).slots@
                == spec_take_one(old(inventory).slots@, i),
        !r ==> final(inventory).slots@ == old(inventory).slots@,
{
    let mut i: usize = 0;
    while i < TOTAL_SLOTS
        invariant
            i <= TOTAL_SLOTS,
            *inventory == *old(inventory),
            counts_positive(inventory.slots@),
            forall|j: int| 0 <= j < i ==> !holds_item(inventory.slots@[j], item),
        decreases TOTAL_SLOTS - i,
    {
        let found = match inventory.slots[i] {
            Some(stack) => stack.item == item,
            None => false,
        };
        if found {
            let ghost s = inventory.slots@;
            assert(first_slot_with(s, item, i as int));
            let _ = inventory.take_one(i);
            return true;
        }
        i = i + 1;
    }
    false
}

pub open spec fn serves_ammo(reg: &Registry, s: Option<ItemStack>, class: Seq<char>) -> bool {
    match s {
        Some(st) => reg.valid_item(st.item) && match reg.spec_item(st.item).ammo {
            Some(a) => a@ == class,
            None => false,
        },
        None => false,
    }
}

/// Find the first carried item of ammunition class `class`. Outside
/// creative play one of it is taken from the first slot holding that item.
pub fn take_ammo(inventory: &mut Inventory, reg: &Registry, class: &str, creative: bool) -> (r:
    Option<ItemId>)
    requires
        counts_positive(old(inventory).slots@),
        forall|i: int|
            0 <= i < TOTAL_SLOTS ==> (#[trigger] old(inventory).slots@[i] matches Some(st)
                ==> reg.valid_item(st.item)),
    ensures
        r is None <==> forall|i: int|
            0 <= i < TOTAL_SLOTS ==> !serves_ammo(reg, old(inventory).slots@[i], class@),
        r matches Some(item) ==> exists|i: int|
            0 <= i < TOTAL_SLOTS && serves_ammo(reg, old(inventory).slots@[i], class@)
                && holds_item(old(inventory).slots@[i], item) && forall|j: int|
                0 <= j < i ==> !serves_ammo(reg, old(inventory).slots@[j], class@),
        (r is None || creative) ==> final(inventory).slots@ == old(inventory).slots@,
        !creative ==> (r matches Some(item) ==> exists|i: int|
            first_slot_with(old(inventory).slots@, item, i) && final(inventory).slots@
                == spec_take_one(old(inventory).slots@, i)),
{
    let mut i: usize = 0;
    while i < TOTAL_SLOTS
        invariant
            i <= TOTAL_SLOTS,
            *inventory == *old(inventory),
            counts_positive(inventory.slots@),
            forall|j: int| 0 <= j < i ==> !serves_ammo(reg, inventory.slots@[j], class@),
            forall|j: int|
                0 <= j < TOTAL_SLOTS ==> (#[trigger] inventory.slots@[j] matches Some(st)
                    ==> reg.valid_item(st.item)),
        decreases TOTAL_SLOTS - i,
    {
        if let Some(stack) = inventory.slots[i] {
            let def = reg.item(stack.item);
            let serves = match &def.ammo {
                Some(a) => str_eq(a.as_str(), class),
                None => false,
            };
            if serves {
                let item = stack.item;
                assert(holds_item(inventory.slots@[i as int], item));
                if !creative {
                    let _ = take_item(inventory, item);
                }
                return Some(item);
            }
        }
        i = i + 1;
    }
    None
}

/// Armor points of a worn stack according to the host's registry, if the
/// host has one and the item is armor.
pub fn server_item_armor_points(stack: &ItemStack, reg: Option<&Registry>) -> (r: Option<u32>)
    requires
        reg matches Some(g) ==> g.valid_item(stack.item),
    ensures
        r == (match reg {
            Some(g) => g.spec_item(stack.item).armor_points,
            None => None,
        }),
{
    match reg {
        Some(g) => g.item(stack.item).armor_points,
        None => None,
    }
}

} // verus!
