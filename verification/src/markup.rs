//! The fixed parts of the pages. A constant that is named after a value stands
//! before it, and one that ends in `_END` stands behind the last.
use vstd::prelude::*;

verus! {

// Tables.

pub const ROW: &'static str = "<tr><td>";

pub const CELL: &'static str = "</td><td>";

pub const ROW_END: &'static str = "</td></tr>";

pub const TABLE_END: &'static str = "</table>";

// The overview.

pub const DASHBOARD_CONTACTS: &'static str =
    "<h1>Dashboard</h1><div class=\"stats\"><div class=\"stat-card\"><div class=\"stat\">";

pub const DASHBOARD_APPS: &'static str =
    "</div><div class=\"label\">Contacts</div></div><div class=\"stat-card\"><div \
    class=\"stat\">";

pub const DASHBOARD_CONNS: &'static str =
    "</div><div class=\"label\">Applications</div></div><div class=\"stat-card\"><div \
    class=\"stat\">";

pub const DASHBOARD_OWNER: &'static str =
    "</div><div class=\"label\">Active Connections</div></div></div><div class=\"card\"><div \
    class=\"label\">Owner</div><div>";

pub const DASHBOARD_DEVICE: &'static str =
    "</div><div class=\"label\" style=\"margin-top:.5rem\">Device</div><div>";

pub const DASHBOARD_HOSTS: &'static str =
    "</div><div class=\"label\" style=\"margin-top:.5rem\">Advertised hosts</div><div>";

pub const DASHBOARD_END: &'static str = "</div></div>";

pub const NO_HOSTS: &'static str =
    "<span style='color:#900'>none — set <code>PNET_HOSTS</code> and restart</span>";

// Where a change could not be published.

pub const PUBLISH_FAILED: &'static str =
    "<div class='card' style='background:#fee;color:#900;border:1px solid #c66'>\
    <strong>Could not publish change:</strong> no reachable writer SG. The local change has \
    been rolled back; retry when an SG is online.</div>";

// Applications that wait for approval.

pub const PENDING_ROW_APPROVE: &'static str =
    "</td><td><form method='post' action='/pending-apps/approve'><input type='hidden' \
    name='id' value='";

pub const PENDING_ROW_REJECT: &'static str =
    "'><button class='approve' type='submit'>Approve</button></form><form method='post' \
    action='/pending-apps/reject'><input type='hidden' name='id' value='";

pub const PENDING_ROW_END: &'static str =
    "'><button class='reject' type='submit'>Reject</button></form></td></tr>";

pub const NO_PENDING: &'static str = "<p class='empty'>No pending applications.</p>";

pub const PENDING_TABLE_ROWS: &'static str =
    "<table><tr><th>Alias</th><th>Protocol</th><th>Host</th><th>Actions</th></tr>";

pub const PENDING_BANNER: &'static str = "<h1>Pending Apps</h1>";

// Approved applications.

pub const APP_ROW_RENAME: &'static str =
    "</td><td><form method='post' action='/applications/rename' \
    style='margin:0;display:flex;gap:.25rem'><input type='hidden' name='id' value='";

pub const APP_ROW_NAME: &'static str = "'><input type='text' name='alias' value='";

pub const APP_ROW_DELETE: &'static str =
    "' required><button type='submit'>Rename</button></form></td><td><form method='post' \
    action='/applications/delete' style='margin:0'><input type='hidden' name='id' value='";

pub const APP_ROW_END: &'static str =
    "'><button type='submit'>Delete</button></form></td></tr>";

pub const NO_APPS: &'static str = "<p class='empty'>No approved applications.</p>";

pub const APP_TABLE_ROWS: &'static str =
    "<table><tr><th>Alias</th><th>Protocol</th><th>Host</th><th>Rename</th><th></th></tr>";

pub const APPS_BANNER: &'static str = "<h1>Applications</h1>";

// Contacts.

pub const CONTACT_DEVICE_ALIAS: &'static str = "<li style='font-size:.85rem'>";

pub const CONTACT_DEVICE_APPS: &'static str = " — ";

pub const CONTACT_DEVICE_PLURAL: &'static str = " app";

pub const CONTACT_DEVICE_END: &'static str = "</li>";

pub const CONTACT_NO_DEVICES: &'static str =
    "<span style='color:#999;font-size:.85rem'>no devices</span>";

pub const CONTACT_DEVICES_ROWS: &'static str = "<ul style='margin:0;padding-left:1.2rem'>";

pub const CONTACT_DEVICES_END: &'static str = "</ul>";

pub const NO_CONTACTS: &'static str = "<p class='empty'>No contacts yet.</p>";

pub const CONTACT_TABLE_ROWS: &'static str =
    "<table><tr><th>Alias</th><th>Devices &amp; Apps</th></tr>";

pub const CONTACTS_TABLE: &'static str = "<h1>Contacts</h1>";

pub const CONTACTS_END: &'static str =
    "<div class='card' style='margin-top:1.5rem'><h2 style='margin-top:0;font-size:1rem'>Add \
    a Contact</h2><p style='color:#666;font-size:.9rem;margin-top:0'>Paste an invitation \
    code from another pNet user.</p><form method='post' action='/contacts/enter'><textarea \
    name='code' rows='3' \
    style='width:100%;font-family:monospace;font-size:.85rem;box-sizing:border-box;padding:.4rem;border:1px \
    solid #ccc;border-radius:4px' placeholder='Paste contact invitation code here...'>\
    </textarea><br><button type='submit' style='margin-top:.5rem'>Add Contact</button>\
    </form></div>";

// Devices.

pub const THIS_DEVICE: &'static str = " <em>(this device)</em>";

pub const DEVICES_HEADING: &'static str =
    "<div \
    style='display:flex;align-items:center;justify-content:space-between;margin-bottom:.75rem'>\
    <h1 style='margin:0'>Devices</h1><form method='post' action='/devices/sync'><button \
    type='submit'>Sync</button></form></div>";

pub const DEVICES_NONE_END: &'static str = "<p class='empty'>No devices.</p>";

pub const DEVICES_ROWS: &'static str =
    "<table><tr><th>Alias</th><th>Host</th><th>Apps</th></tr>";

// Diagnostics.

pub const LOCAL_UUID: &'static str =
    "<div class='card'><h2 style='margin-top:0'>Local node</h2><table><tr><th>Device \
    UUID</th><td><code>";

pub const LOCAL_WRITER: &'static str =
    "</code></td></tr><tr><th>Public version</th><td>writer=<code>";

pub const LOCAL_EPOCH: &'static str = "</code> epoch=";

pub const LOCAL_SEQ: &'static str = " seq=";

pub const LOCAL_ENTRIES: &'static str = "</td></tr><tr><th>Write log</th><td>";

pub const LOCAL_DAYS: &'static str = " entries (retention ";

pub const LOCAL_END: &'static str = "d)</td></tr></table></div>";

pub const PEER_UP: &'static str = "<span style='color:#2d7a3b'>up</span>";

pub const PEER_DOWN: &'static str = "<span style='color:#c0392b'>down</span>";

pub const PEER_HOST_NAME: &'static str = "<li><code>";

pub const PEER_HOST_STATUS: &'static str = "</code> — ";

pub const PEER_HOST_RTT: &'static str = " (rtt ";

pub const PEER_HOST_END: &'static str = ")</li>";

pub const PEER_HOST_UNPOLLED_NAME: &'static str = "<li><code>";

pub const PEER_HOST_UNPOLLED_END: &'static str =
    "</code> — <span style='color:#888'>not yet polled</span></li>";

pub const PEER_ROW_UUID: &'static str = "<br><code style='font-size:.75rem;color:#888'>";

pub const PEER_ROW_HOSTS: &'static str =
    "</code></td><td><ul style='margin:0;padding-left:1.2rem'>";

pub const PEER_ROW_END: &'static str = "</ul></td></tr>";

pub const NO_PEERS: &'static str =
    "<div class='card'><h2 style='margin-top:0'>Own-user SG peers</h2><p class='empty'>No \
    other own-user SG peers.</p></div>";

pub const PEERS_ROWS: &'static str =
    "<div class='card'><h2 style='margin-top:0'>Own-user SG peers</h2><table><tr>\
    <th>Peer</th><th>Hosts</th></tr>";

pub const PEERS_END: &'static str = "</table></div>";

pub const MARK_ROW_ALIAS: &'static str = "<tr><td><code>";

pub const MARK_ROW_WRITER: &'static str =
    "</code><br><span style='font-size:.75rem;color:#888'>";

pub const MARK_ROW_EPOCH: &'static str = "</span></td><td>epoch=";

pub const MARK_ROW_SEQ: &'static str = " seq=";

pub const MARKS_ROW_UUID: &'static str = "<br><code style='font-size:.75rem;color:#888'>";

pub const MARKS_ROW_ROWS: &'static str =
    "</code></td><td><table style='margin:0;box-shadow:none;background:transparent'><tr>\
    <th>Writer</th><th>Version</th></tr>";

pub const MARKS_ROW_END: &'static str = "</table></td></tr>";

pub const NO_MARKS: &'static str =
    "<div class='card'><h2 style='margin-top:0'>Last watermarks</h2><p class='empty'>No \
    watermark exchanges yet.</p></div>";

pub const MARKS_ROWS: &'static str =
    "<div class='card'><h2 style='margin-top:0'>Last watermarks</h2><p \
    style='font-size:.85rem;color:#666;margin-top:0'>Per-peer, per-writer agreed \
    reconciliation point. Rebuilt on every watermark-probe round-trip.</p><table><tr>\
    <th>Peer</th><th>Per-writer min</th></tr>";

pub const MARKS_END: &'static str = "</table></div>";

pub const PROPOSAL_ROW_UUID: &'static str = "<br><code style='font-size:.75rem;color:#888'>";

pub const PROPOSAL_ROW_COUNT: &'static str = "</code></td><td>";

pub const PROPOSAL_ROW_PLURAL: &'static str = " entr";

pub const NO_PROPOSALS: &'static str =
    "<div class='card'><h2 style='margin-top:0'>Buffered merge proposals</h2><p \
    class='empty'>No inbound merge proposals buffered.</p></div>";

pub const PROPOSALS_ROWS: &'static str =
    "<div class='card'><h2 style='margin-top:0'>Buffered merge proposals</h2><p \
    style='font-size:.85rem;color:#666;margin-top:0'>Entries received from peers and \
    waiting to be merged into the local log.</p><table><tr><th>Peer</th><th>Buffered</th>\
    </tr>";

pub const PROPOSALS_END: &'static str = "</table></div>";

// Invitations.

pub const NO_HOST_ERROR: &'static str =
    "<div class='card' style='background:#fee;color:#900;border:1px solid #c66'>\
    <strong>Could not generate invitation:</strong> no reachable host is configured for \
    this device. Set the <code>PNET_HOSTS</code> environment variable before starting the \
    node, then restart. See the server log for details.</div>";

pub const DEVICE_CODE_TEXT: &'static str =
    "<div class='card'><div class='label'>Share this code with the new device (expires in 15 \
    min). It is shown once — copy it now.</div><pre \
    style='word-break:break-all;background:#f0f0f0;padding:.75rem;border-radius:4px;font-size:.85rem;margin:.5rem \
    0 0'>";

pub const DEVICE_CODE_END: &'static str = "</pre></div>";

pub const CONTACT_CODE_TEXT: &'static str =
    "<div class='card'><div class='label'>Share this code with your new contact (expires in \
    15 min). It is shown once — copy it now.</div><pre \
    style='word-break:break-all;background:#f0f0f0;padding:.75rem;border-radius:4px;font-size:.85rem;margin:.5rem \
    0 0'>";

pub const CONTACT_CODE_END: &'static str = "</pre></div>";

pub const INVITATION_ROW_ID: &'static str = "<tr><td style='font-family:monospace'>";

pub const NO_DEVICE_INVITATIONS: &'static str =
    "<p class='empty'>No pending device invitations.</p>";

pub const INVITATION_TABLE_ROWS: &'static str =
    "<table><tr><th>Invitation ID (first 8 bytes)</th></tr>";

pub const NO_CONTACT_INVITATIONS: &'static str =
    "<p class='empty'>No pending contact invitations.</p>";

pub const INVITATIONS_ERROR: &'static str = "<h1>Invitations</h1>";

pub const INVITATIONS_DEVICES: &'static str =
    "<div class='card'><h2 style='margin-top:0;font-size:1rem'>Add a Device</h2><p \
    style='color:#666;font-size:.9rem;margin-top:0'>Generate a one-time code, then enter it \
    on the new device.</p>";

pub const INVITATIONS_CONTACTS: &'static str =
    "<form method='post' action='/invitations/device' style='margin-top:1rem'><button \
    type='submit'>Generate Device Invitation</button></form></div><div class='card'><h2 \
    style='margin-top:0;font-size:1rem'>Add a Contact</h2><p \
    style='color:#666;font-size:.9rem;margin-top:0'>Generate a one-time code and share it \
    with the person you want to add.</p>";

pub const INVITATIONS_END: &'static str =
    "<form method='post' action='/invitations/contact' style='margin-top:1rem'><button \
    type='submit'>Generate Contact Invitation</button></form></div><div class='card'><h2 \
    style='margin-top:0;font-size:1rem'>Enter Invitation Code</h2><p \
    style='color:#666;font-size:.9rem;margin-top:0'>On this new device, paste a code \
    generated on another device.</p><form method='post' action='/invitations/enter'>\
    <textarea name='code' rows='3' \
    style='width:100%;font-family:monospace;font-size:.85rem;box-sizing:border-box;padding:.4rem;border:1px \
    solid #ccc;border-radius:4px' placeholder='Paste invitation code here...'></textarea>\
    <br><button type='submit' style='margin-top:.5rem'>Connect to Network</button></form>\
    </div>";

// The steps of the setup.

pub const WAITING: &'static str =
    "<meta http-equiv=\"refresh\" content=\"3; url=/setup\"><h1>Connecting…</h1><p \
    class=\"swiz-sub\">Waiting for a response from the server.<br>This page will refresh \
    automatically.</p><p style=\"color:#888;font-size:.8rem\">Make sure the invitation code \
    was valid and that the server is reachable.</p>";

pub const GRADE_STEP: &'static str =
    "<h1>Welcome to pNet</h1><p class=\"swiz-sub\">Let’s get your node configured. First, \
    what type of device is this?</p><a class=\"choice-btn\" href=\"/setup?grade=sg\"><span \
    class=\"choice-title\">Server Grade (SG)</span><span class=\"choice-desc\">A server \
    with a static IP or domain. Acts as a relay for your other devices.</span></a><a \
    class=\"choice-btn\" href=\"/setup?grade=dg\"><span class=\"choice-title\">Device Grade \
    (DG)</span><span class=\"choice-desc\">A laptop, phone, or any device behind a home \
    router. Requires a server to relay connections.</span></a>";

pub const ROLE_STEP: &'static str =
    "<h1>Server Grade Setup</h1><p class=\"swiz-sub\">Is this the first device for a new \
    user, or are you adding it to an existing account?</p><a class=\"choice-btn\" \
    href=\"/setup?grade=sg&role=new\"><span class=\"choice-title\">New User</span><span \
    class=\"choice-desc\">Create a new pNet identity on this server.</span></a><a \
    class=\"choice-btn\" href=\"/setup?grade=sg&role=join\"><span \
    class=\"choice-title\">Join Existing</span><span class=\"choice-desc\">Add this server \
    to an existing user’s pNet using an invitation code.</span></a><a class=\"swiz-back\" \
    href=\"/setup\">← Back</a>";

pub const FIELDS_NEEDED: &'static str =
    "<p style=\"color:#c0392b;font-size:.85rem;margin-bottom:1rem\">Name and device name are \
    required.</p>";

pub const ADMIN_PASSWORD_SHORT: &'static str =
    "<p style=\"color:#c0392b;font-size:.85rem;margin-bottom:1rem\">Admin password must be \
    at least 8 characters.</p>";

pub const PASSWORD_MISMATCH: &'static str =
    "<p style=\"color:#c0392b;font-size:.85rem;margin-bottom:1rem\">Passwords do not \
    match.</p>";

pub const NEW_USER_ERROR: &'static str =
    "<h1>Create Your Identity</h1><p class=\"swiz-sub\">Set your name and give this server a \
    label. Reachable addresses are configured at startup via the <code>PNET_HOSTS</code> \
    environment variable.</p>";

pub const NEW_USER_END: &'static str =
    "<form method=\"post\" action=\"/setup/create\" style=\"display:block\"><input \
    type=\"hidden\" name=\"grade\" value=\"sg\"><label class=\"swiz-label\">Your name or \
    alias</label><input class=\"swiz-input\" type=\"text\" name=\"alias\" \
    placeholder=\"e.g. Alice\" required autocomplete=\"off\"><label \
    class=\"swiz-label\">Device name</label><input class=\"swiz-input\" type=\"text\" \
    name=\"device_alias\" placeholder=\"e.g. Home Server\" required autocomplete=\"off\">\
    <label class=\"swiz-label\">SG rank (1 = highest priority relay)</label><input \
    class=\"swiz-input\" type=\"number\" name=\"sg_rank\" value=\"1\" min=\"1\" max=\"255\" \
    autocomplete=\"off\"><label class=\"swiz-label\">Admin password</label><input \
    class=\"swiz-input\" type=\"password\" name=\"password\" required minlength=\"8\" \
    autocomplete=\"new-password\"><label class=\"swiz-label\">Confirm admin password</label>\
    <input class=\"swiz-input\" type=\"password\" name=\"password_confirm\" required \
    minlength=\"8\" autocomplete=\"new-password\"><button class=\"swiz-btn\" \
    type=\"submit\">Create Identity</button></form><a class=\"swiz-back\" \
    href=\"/setup?grade=sg\">← Back</a>";

pub const CODE_ENTRY_ERROR: &'static str =
    "<h1>Enter Invitation Code</h1><p class=\"swiz-sub\">Paste the invitation code generated \
    on your existing device. Also set an admin password for this device’s web UI.</p>";

pub const CODE_ENTRY_GRADE: &'static str =
    "<form method=\"post\" action=\"/setup/join\" style=\"display:block\"><input \
    type=\"hidden\" name=\"grade\" value=\"";

pub const CODE_ENTRY_BACK: &'static str =
    "\"><label class=\"swiz-label\">Device name</label><input class=\"swiz-input\" \
    name=\"device_alias\" type=\"text\" placeholder=\"e.g. My Laptop\" required \
    autocomplete=\"off\"><label class=\"swiz-label\">Invitation code</label><textarea \
    name=\"code\" rows=\"4\" class=\"swiz-input\" \
    style=\"font-family:monospace;font-size:.8rem;resize:vertical\" placeholder=\"Paste \
    code here…\" required></textarea><label class=\"swiz-label\">Admin password</label>\
    <input class=\"swiz-input\" type=\"password\" name=\"password\" required \
    minlength=\"8\" autocomplete=\"new-password\"><label class=\"swiz-label\">Confirm admin \
    password</label><input class=\"swiz-input\" type=\"password\" name=\"password_confirm\" \
    required minlength=\"8\" autocomplete=\"new-password\"><button class=\"swiz-btn\" \
    type=\"submit\">Connect</button></form><a class=\"swiz-back\" href=\"";

pub const CODE_ENTRY_END: &'static str = "\">← Back</a>";

// Logging in.

pub const BAD_PASSWORD: &'static str =
    "<p style=\"color:#c0392b;font-size:.85rem;margin-bottom:1rem\">Incorrect password.</p>";

pub const LOGIN_ERROR: &'static str =
    "<h1>Admin login</h1><p class=\"swiz-sub\">Enter the admin password for this pNet \
    node.</p>";

pub const LOGIN_END: &'static str =
    "<form method=\"post\" action=\"/login\" style=\"display:block\"><label \
    class=\"swiz-label\">Password</label><input class=\"swiz-input\" type=\"password\" \
    name=\"password\" required autocomplete=\"current-password\"><button class=\"swiz-btn\" \
    type=\"submit\">Log in</button></form>";

pub const PASSWORD_SHORT: &'static str =
    "<p style=\"color:#c0392b;font-size:.85rem;margin-bottom:1rem\">Password must be at \
    least 8 characters.</p>";

pub const PASSWORD_EXISTS: &'static str =
    "<p style=\"color:#c0392b;font-size:.85rem;margin-bottom:1rem\">A password is already \
    set. Log in instead.</p>";

pub const SET_PASSWORD_ERROR: &'static str =
    "<h1>Set admin password</h1><p class=\"swiz-sub\">This node has no admin password yet. \
    Choose one to protect the control UI.</p>";

pub const SET_PASSWORD_END: &'static str =
    "<form method=\"post\" action=\"/set-password\" style=\"display:block\"><label \
    class=\"swiz-label\">Admin password</label><input class=\"swiz-input\" \
    type=\"password\" name=\"password\" required minlength=\"8\" \
    autocomplete=\"new-password\"><label class=\"swiz-label\">Confirm password</label>\
    <input class=\"swiz-input\" type=\"password\" name=\"password_confirm\" required \
    minlength=\"8\" autocomplete=\"new-password\"><button class=\"swiz-btn\" \
    type=\"submit\">Save password</button></form>";

// What stands round every page.

pub const PARTITION_PEERS: &'static str =
    "<div class='card' style='background:#fff4d6;color:#7a5a00;border:1px solid #e0c060'>\
    <strong>Partition detected:</strong> own-user SG peer(s) currently unreachable: ";

pub const PARTITION_END: &'static str =
    ". Sync v2 will reconcile automatically when the peer comes back. See <a \
    href='/diagnostics'>Diagnostics</a> for watermarks and pending proposals.</div>";

pub const SETUP_LAYOUT_CSS: &'static str =
    "<!DOCTYPE html>\n<html>\n<head>\n<meta charset=\"utf-8\">\n<title>pNet — Setup</title>\n\
    <style>";

pub const SETUP_LAYOUT_BODY: &'static str =
    "</style>\n</head>\n<body>\n<div class=\"swiz-wrap\"><div class=\"swiz-brand\">pNet</div>";

pub const SETUP_LAYOUT_END: &'static str = "</div>\n</body>\n</html>";

pub const CSS: &'static str =
    "\nbody { font-family: sans-serif; margin: 0; background: #f5f5f5; color: #222; }\nnav { \
    background: #1a1a2e; padding: .75rem 1.5rem; display: flex; align-items: center; gap: \
    1.5rem; }\nnav a { color: #aac; text-decoration: none; font-size: .9rem; }\nnav a:hover \
    { color: #fff; }\n.brand { color: #fff; font-weight: bold; font-size: 1.1rem; \
    margin-right: 1rem; }\nmain { padding: 1.5rem 2rem; max-width: 900px; }\nh1 { \
    margin-top: 0; font-size: 1.4rem; }\ntable { border-collapse: collapse; width: 100%; \
    background: white; border-radius: 6px; overflow: hidden; box-shadow: 0 1px 3px \
    rgba(0,0,0,.1); }\nth { background: #eee; text-align: left; padding: .6rem 1rem; \
    font-size: .85rem; color: #555; }\ntd { padding: .6rem 1rem; border-top: 1px solid \
    #eee; font-size: .9rem; }\n.card { background: white; border-radius: 6px; padding: \
    1.2rem 1.5rem; box-shadow: 0 1px 3px rgba(0,0,0,.1); margin-bottom: 1rem; }\n.stats { \
    display: flex; gap: 1rem; margin-bottom: 1.5rem; }\n.stat-card { background: white; \
    border-radius: 6px; padding: 1rem 1.5rem; box-shadow: 0 1px 3px rgba(0,0,0,.1); flex: \
    1; }\n.stat { font-size: 2rem; font-weight: bold; color: #1a1a2e; }\n.label { \
    font-size: .8rem; color: #888; }\nbutton { padding: .3rem .8rem; border: none; \
    border-radius: 4px; cursor: pointer; font-size: .85rem; }\n.approve { background: \
    #2d7a3b; color: white; }\n.reject { background: #c0392b; color: white; margin-left: \
    .4rem; }\nform { display: inline; }\n.empty { color: #888; font-style: italic; }\n";

pub const SETUP_CSS: &'static str =
    "\n.swiz-wrap { max-width: 460px; margin: 5rem auto; padding: 0 1.5rem; }\n.swiz-brand { \
    color: #1a1a2e; font-weight: bold; font-size: 1.3rem; margin-bottom: 2.5rem; }\n\
    .swiz-wrap h1 { font-size: 1.5rem; margin: 0 0 .4rem; }\n.swiz-sub { color: #666; \
    font-size: .9rem; margin: 0 0 1.5rem; line-height: 1.5; }\n.choice-btn { display: \
    block; background: white; border: 1px solid #ddd; border-radius: 8px;\n              \
    padding: 1rem 1.2rem; margin-bottom: .75rem; text-decoration: none; color: \
    #222;\n              box-shadow: 0 1px 3px rgba(0,0,0,.07); transition: border-color \
    .15s; }\n.choice-btn:hover { border-color: #1a1a2e; }\n.choice-title { display: block; \
    font-weight: bold; font-size: .95rem; }\n.choice-desc { display: block; font-size: \
    .8rem; color: #666; margin-top: .25rem; line-height: 1.4; }\n.swiz-label { display: \
    block; font-size: .85rem; color: #555; margin-bottom: .3rem; }\n.swiz-input { display: \
    block; width: 100%; box-sizing: border-box; padding: .55rem .7rem;\n              \
    border: 1px solid #ccc; border-radius: 5px; font-size: .95rem; margin-bottom: 1rem; }\n\
    .swiz-btn { background: #1a1a2e; color: white; border: none; border-radius: \
    5px;\n            padding: .55rem 1.4rem; font-size: .95rem; cursor: pointer; }\n\
    .swiz-btn:hover { background: #2a2a4e; }\n.swiz-back { display: inline-block; \
    margin-top: 1.25rem; font-size: .8rem; color: #888;\n             text-decoration: \
    none; }\n.swiz-back:hover { color: #444; }\n";

pub const LAYOUT_TITLE: &'static str =
    "<!DOCTYPE html>\n<html>\n<head>\n<meta charset=\"utf-8\">\n<title>pNet — ";

pub const LAYOUT_CSS: &'static str = "</title>\n<style>";

pub const LAYOUT_BANNER: &'static str =
    "</style>\n</head>\n<body>\n<nav>\n  <span class=\"brand\">pNet</span>\n  <a \
    href=\"/dashboard\">Dashboard</a>\n  <a href=\"/pending-apps\">Pending Apps</a>\n  <a \
    href=\"/applications\">Applications</a>\n  <a href=\"/contacts\">Contacts</a>\n  <a \
    href=\"/devices\">Devices</a>\n  <a href=\"/invitations\">Invitations</a>\n  <a \
    href=\"/diagnostics\">Diagnostics</a>\n  <form method=\"post\" action=\"/logout\" \
    style=\"margin-left:auto;display:inline\"><button type=\"submit\" \
    style=\"background:transparent;color:#aac;border:1px solid #556;padding:.25rem \
    .6rem;cursor:pointer;font-size:.85rem\">Log out</button></form>\n</nav>\n<main>\n";

pub const LAYOUT_END: &'static str = "\n</main>\n</body>\n</html>";

// Short pages.

pub const FORBIDDEN: &'static str =
    "<h1>403 — CSRF check failed</h1><p>Origin/Referer does not match this host.</p>";

pub const NOT_FOUND: &'static str = "<h1>404 — Not Found</h1>";

// The pages of the debug module.

pub const DEBUG_INBOX_EMPTY: &'static str = "<p style=\"color:#999\">empty</p>";

pub const DEBUG_INBOX_ROWS: &'static str =
    "<table><tr><th>When (epoch)</th><th>From</th><th>Payload</th></tr>";

pub const DEBUG_NOTICE_TEXT: &'static str = "<div class=\"banner\">";

pub const DEBUG_NOTICE_END: &'static str = "</div>";

pub const DEBUG_INDEX_CSS: &'static str =
    "<!DOCTYPE html><html><head><title>Debug</title><meta charset=\"utf-8\"><style>";

pub const DEBUG_INDEX_NOTICE: &'static str =
    "</style></head><body><h1>Debug</h1><p style=\"color:#666;font-size:.85rem\"><a \
    href=\"/dashboard\">← back to pnet</a></p>";

pub const DEBUG_INDEX_OWNER: &'static str = "<h2>Owner</h2><pre>";

pub const DEBUG_INDEX_THIS: &'static str = "</pre><h2>This device</h2><pre>";

pub const DEBUG_INDEX_OWN_COUNT: &'static str = "</pre><h2>Own devices (";

pub const DEBUG_LIST: &'static str = ")</h2><pre>";

pub const DEBUG_INDEX_CONTACT_COUNT: &'static str = "</pre><h2>Contacts (";

pub const DEBUG_INDEX_CONN_COUNT: &'static str = "</pre><h2>Active connections (";

pub const DEBUG_INDEX_SG_COUNT: &'static str = "</pre><h2>SG statuses (";

pub const DEBUG_INDEX_FORM: &'static str = "</pre><h2>Send a packet</h2>";

pub const DEBUG_INDEX_INBOX_COUNT: &'static str = "<h2>Inbox (";

pub const DEBUG_INDEX_INBOX: &'static str = ")</h2>";

pub const DEBUG_INDEX_END: &'static str = "</body></html>";

pub const DEBUG_NO_TARGETS: &'static str =
    "<p style=\"color:#999\">No known peer devices to send to yet.</p>";

pub const DEBUG_OPTION_DEVICE: &'static str = "<option value=\"";

pub const DEBUG_OPTION_USER: &'static str = "\">";

pub const DEBUG_OPTION_NAME: &'static str = " — ";

pub const DEBUG_OPTION_END: &'static str = "</option>";

pub const DEBUG_FORM_OPTIONS: &'static str =
    "<form method=\"post\" action=\"/apps/debug/send\"><select name=\"device\">";

pub const DEBUG_FORM_END: &'static str =
    "</select><input type=\"text\" name=\"payload\" value=\"hello world\"><button \
    type=\"submit\">Send</button></form>";

pub const DEBUG_RECEIVED_DEVICE: &'static str = "</td><td><span class=\"k\">device</span> ";

pub const DEBUG_RECEIVED_USER: &'static str = "<br><span class=\"k\">user</span> ";

pub const DEBUG_RECEIVED_TEXT: &'static str = "</td><td><pre>";

pub const DEBUG_RECEIVED_HEX: &'static str = "</pre><pre class=\"hex\">";

pub const DEBUG_RECEIVED_END: &'static str = "</pre></td></tr>";

pub const DEBUG_STYLE: &'static str =
    "body { font-family: -apple-system, BlinkMacSystemFont, sans-serif; max-width: 1100px; \
    margin: 0 auto; padding: 1rem; color: #222; }h1 { margin-top: 0; }h2 { margin-top: \
    1.4rem; border-bottom: 1px solid #ddd; padding-bottom: .25rem; font-size: 1.05rem; }pre \
    { font-size: .8rem; background: #f7f7f7; padding: .6rem; border-radius: 4px; \
    overflow-x: auto; white-space: pre-wrap; word-break: break-all; margin: .25rem 0; \
    }pre.hex { color: #888; font-size: .75rem; }table { width: 100%; border-collapse: \
    collapse; }th, td { border-bottom: 1px solid #eee; padding: .35rem .5rem; \
    vertical-align: top; font-size: .85rem; text-align: left; }form { display: flex; gap: \
    .5rem; align-items: center; flex-wrap: wrap; }select, input, button { font-size: .9rem; \
    padding: .35rem .5rem; }input[type=text] { flex: 1; min-width: 200px; }.banner { \
    background: #eef; border: 1px solid #99c; padding: .5rem .75rem; border-radius: 4px; \
    margin: .8rem 0; }.k { color: #888; font-size: .75rem; }";

} // verus!
